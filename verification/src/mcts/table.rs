//! A table of fixed length whose slots are empty or hold a value.

use vstd::prelude::*;
use vstd::std_specs::cmp::PartialEqSpec;

verus! {

/// A table of fixed length whose slots are empty or hold a value.
#[derive(Clone)]
pub struct Table<T> {
    pub slots: Vec<Option<T>>,
}

impl<T> View for Table<T> {
    type V = Seq<Option<T>>;

    open spec fn view(&self) -> Seq<Option<T>> {
        self.slots@
    }
}

/// The indices and values of the full slots, in order.
pub open spec fn full_slots<T>(slots: Seq<Option<T>>) -> Seq<(int, T)>
    decreases slots.len(),
{
    if slots.len() == 0 {
        Seq::empty()
    } else {
        let rest = full_slots(slots.drop_last());
        match slots.last() {
            Some(value) => rest.push((slots.len() - 1, value)),
            None => rest,
        }
    }
}

/// The values of the full slots, in order.
pub open spec fn full_values<T>(slots: Seq<Option<T>>) -> Seq<T> {
    full_slots(slots).map_values(|entry: (int, T)| entry.1)
}

proof fn lemma_full_slots_step<T>(slots: Seq<Option<T>>, i: int)
    requires
        0 <= i < slots.len(),
    ensures
        full_slots(slots.take(i + 1)) == (match slots[i] {
            Some(value) => full_slots(slots.take(i)).push((i, value)),
            None => full_slots(slots.take(i)),
        }),
{
    assert(slots.take(i + 1).drop_last() =~= slots.take(i));
}

/// The full slots are listed in increasing order of their index, each slot once, with the
/// value that it holds.
pub proof fn law_full_slots<T>(slots: Seq<Option<T>>)
    ensures
        forall|k: int|
            0 <= k < full_slots(slots).len() ==> {
                let entry = #[trigger] full_slots(slots)[k];
                0 <= entry.0 < slots.len() && slots[entry.0] == Some(entry.1)
            },
        forall|k: int, l: int|
            0 <= k < l < full_slots(slots).len() ==> (#[trigger] full_slots(slots)[k]).0 < (
            #[trigger] full_slots(slots)[l]).0,
        forall|i: int|
            0 <= i < slots.len() && #[trigger] slots[i] is Some ==> full_slots(slots).contains(
                (i, slots[i]->0),
            ),
    decreases slots.len(),
{
    if slots.len() > 0 {
        let shorter = slots.drop_last();
        law_full_slots(shorter);
        let rest = full_slots(shorter);
        let all = full_slots(slots);
        assert forall|k: int| 0 <= k < all.len() implies {
            let entry = #[trigger] all[k];
            0 <= entry.0 < slots.len() && slots[entry.0] == Some(entry.1)
        } by {
            if k < rest.len() {
                assert(all[k] == rest[k]);
                assert(shorter[rest[k].0] == slots[rest[k].0]);
            }
        }
        assert forall|i: int| 0 <= i < slots.len() && #[trigger] slots[i] is Some implies all.contains(
            (i, slots[i]->0),
        ) by {
            if i < shorter.len() {
                assert(shorter[i] == slots[i]);
                assert(rest.contains((i, slots[i]->0)));
                let k = choose|k: int| 0 <= k < rest.len() && rest[k] == (i, slots[i]->0);
                assert(all[k] == (i, slots[i]->0));
            } else {
                assert(all[all.len() - 1] == (i, slots[i]->0));
            }
        }
    }
}

impl<T> Table<T> {
    /// A table of `size` empty slots.
    pub fn new(size: usize) -> (table: Table<T>)
        ensures
            table@ == Seq::new(size as nat, |i: int| None::<T>),
    {
        let mut slots: Vec<Option<T>> = Vec::new();
        for i in 0..size
            invariant
                slots@ == Seq::new(i as nat, |i: int| None::<T>),
        {
            slots.push(None);
            assert(slots@ =~= Seq::new((i + 1) as nat, |i: int| None::<T>));
        }
        Table { slots }
    }

    /// The number of slots.
    pub fn len(&self) -> (n: usize)
        ensures
            n == self@.len(),
    {
        self.slots.len()
    }

    /// Puts `value` into slot `idx`.
    pub fn set(&mut self, idx: usize, value: T)
        requires
            idx < old(self)@.len(),
        ensures
            final(self)@ == old(self)@.update(idx as int, Some(value)),
    {
        self.slots.set(idx, Some(value));
    }

    /// The value in slot `idx`.
    pub fn get(&self, idx: usize) -> (value: Option<&T>)
        requires
            idx < self@.len(),
        ensures
            value == (match self@[idx as int] {
                Some(v) => Some(&v),
                None => None,
            }),
    {
        self.slots[idx].as_ref()
    }

    /// The value in slot `idx`, for changing it.
    pub fn get_mut(&mut self, idx: usize) -> (value: Option<&mut T>)
        requires
            idx < old(self)@.len(),
        ensures
            match value {
                Some(v) => old(self)@[idx as int] == Some(*v) && final(self)@ == old(self)@.update(
                    idx as int,
                    Some(*final(v)),
                ),
                None => old(self)@[idx as int] is None && final(self)@ == old(self)@,
            },
    {
        self.slots[idx].as_mut()
    }

    /// The first slot whose value equals `value`.
    pub fn position_of(&self, value: &T) -> (position: Option<usize>) where T: PartialEq
        ensures
            T::obeys_eq_spec() ==> match position {
                Some(i) => {
                    &&& i < self@.len()
                    &&& self@[i as int] matches Some(v) && v.eq_spec(value)
                    &&& forall|j: int|
                        0 <= j < i ==> !(#[trigger] self@[j] matches Some(v) && v.eq_spec(value))
                },
                None => forall|j: int|
                    0 <= j < self@.len() ==> !(#[trigger] self@[j] matches Some(v) && v.eq_spec(
                        value,
                    )),
            },
    {
        for i in 0..self.slots.len()
            invariant
                T::obeys_eq_spec() ==> forall|j: int|
                    0 <= j < i ==> !(#[trigger] self@[j] matches Some(v) && v.eq_spec(value)),
        {
            if let Some(v) = &self.slots[i] {
                if v == value {
                    return Some(i);
                }
            }
        }
        None
    }

    /// All slots with their indices, the empty ones among them.
    pub fn iter(&self) -> (entries: Vec<(usize, Option<&T>)>)
        ensures
            entries@.len() == self@.len(),
            forall|i: int|
                0 <= i < entries@.len() ==> #[trigger] entries@[i] == (
                    i as usize,
                    match self@[i] {
                        Some(v) => Some(&v),
                        None => None,
                    },
                ),
    {
        let mut entries: Vec<(usize, Option<&T>)> = Vec::new();
        for i in 0..self.slots.len()
            invariant
                entries@.len() == i,
                forall|j: int|
                    0 <= j < i ==> #[trigger] entries@[j] == (
                        j as usize,
                        match self@[j] {
                            Some(v) => Some(&v),
                            None => None,
                        },
                    ),
        {
            entries.push((i, self.slots[i].as_ref()));
        }
        entries
    }

    /// Copies of the values of the full slots, in order.
    pub fn values_copied(&self) -> (values: Vec<T>) where T: Copy
        ensures
            values@ == full_values(self@),
    {
        let mut values: Vec<T> = Vec::new();
        assert(values@ =~= full_values(self@.take(0)));
        for i in 0..self.slots.len()
            invariant
                values@ == full_values(self@.take(i as int)),
        {
            proof {
                lemma_full_slots_step(self@, i as int);
            }
            if let Some(v) = self.slots[i] {
                values.push(v);
            }
            assert(values@ =~= full_values(self@.take(i + 1)));
        }
        assert(self@.take(self@.len() as int) =~= self@);
        values
    }

    /// The full slots with their indices, in order.
    pub fn occupied(&self) -> (entries: Vec<(usize, &T)>)
        ensures
            entries@ == full_slots(self@).map_values(|entry: (int, T)| (entry.0 as usize, &entry.1)),
    {
        let mut entries: Vec<(usize, &T)> = Vec::new();
        let ghost pair = |entry: (int, T)| (entry.0 as usize, &entry.1);
        assert(entries@ =~= full_slots(self@.take(0)).map_values(pair));
        for i in 0..self.slots.len()
            invariant
                pair == (|entry: (int, T)| (entry.0 as usize, &entry.1)),
                entries@ == full_slots(self@.take(i as int)).map_values(pair),
        {
            proof {
                lemma_full_slots_step(self@, i as int);
            }
            if let Some(v) = &self.slots[i] {
                entries.push((i, v));
            }
            assert(entries@ =~= full_slots(self@.take(i + 1)).map_values(pair));
        }
        assert(self@.take(self@.len() as int) =~= self@);
        entries
    }

    /// The values of the full slots, in order.
    pub fn values(&self) -> (values: Vec<&T>)
        ensures
            values@ == full_values(self@).map_values(|v: T| &v),
    {
        let mut values: Vec<&T> = Vec::new();
        let ghost refer = |v: T| &v;
        assert(values@ =~= full_values(self@.take(0)).map_values(refer));
        for i in 0..self.slots.len()
            invariant
                refer == (|v: T| &v),
                values@ == full_values(self@.take(i as int)).map_values(refer),
        {
            proof {
                lemma_full_slots_step(self@, i as int);
            }
            if let Some(v) = &self.slots[i] {
                values.push(v);
            }
            assert(values@ =~= full_values(self@.take(i + 1)).map_values(refer));
        }
        assert(self@.take(self@.len() as int) =~= self@);
        values
    }

    /// The values of the full slots, in order, for changing them.
    pub fn values_mut(&mut self) -> (values: Vec<&mut T>)
        ensures
            values@.len() == full_slots(old(self)@).len(),
            final(self)@.len() == old(self)@.len(),
            full_slots(final(self)@).len() == values@.len(),
            forall|k: int|
                0 <= k < values@.len() ==> *(#[trigger] values@[k]) == full_slots(old(self)@)[k].1,
            forall|k: int|
                0 <= k < values@.len() ==> full_slots(final(self)@)[k] == (
                    full_slots(old(self)@)[k].0,
                    *final(#[trigger] values@[k]),
                ),
            forall|i: int|
                0 <= i < old(self)@.len() ==> (#[trigger] final(self)@[i] is None <==> old(
                    self,
                )@[i] is None),
    {
        borrow_values(self.slots.as_mut_slice())
    }
}

impl<T> vstd::std_specs::core::IndexSpecImpl<usize> for Table<T> {
    open spec fn index_req(&self, index: &usize) -> bool {
        *index < self@.len()
    }
}

impl<T> std::ops::Index<usize> for Table<T> {
    type Output = Option<T>;

    fn index(&self, idx: usize) -> (slot: &Option<T>)
        ensures
            *slot == self@[idx as int],
    {
        &self.slots[idx]
    }
}

impl<T> Table<T> {
    /// Slot `idx`, for changing it.
    pub fn index_mut(&mut self, idx: usize) -> (slot: &mut Option<T>)
        requires
            idx < old(self)@.len(),
        ensures
            *slot == old(self)@[idx as int],
            final(self)@ == old(self)@.update(idx as int, *final(slot)),
    {
        &mut self.slots[idx]
    }
}

/// References to the values of the full slots, in order.
fn borrow_values<'a, T>(slots: &'a mut [Option<T>]) -> (values: Vec<&'a mut T>)
    ensures
        values@.len() == full_slots(old(slots)@).len(),
        final(slots)@.len() == old(slots)@.len(),
        full_slots(final(slots)@).len() == values@.len(),
        forall|k: int|
            0 <= k < values@.len() ==> *(#[trigger] values@[k]) == full_slots(old(slots)@)[k].1,
        forall|k: int|
            0 <= k < values@.len() ==> full_slots(final(slots)@)[k] == (
                full_slots(old(slots)@)[k].0,
                *final(#[trigger] values@[k]),
            ),
        forall|i: int|
            0 <= i < old(slots)@.len() ==> (#[trigger] final(slots)@[i] is None <==> old(
                slots,
            )@[i] is None),
    decreases old(slots)@.len(),
{
    let n = slots.len();
    if n == 0 {
        return Vec::new();
    }
    if n == 1 {
        let mut values: Vec<&'a mut T> = Vec::new();
        proof {
            assert forall|all: Seq<Option<T>>| all.len() == 1 implies #[trigger] full_slots(all) == (
            match all[0] {
                Some(value) => seq![(0int, value)],
                None => Seq::empty(),
            }) by {
                assert(full_slots(all.drop_last()) =~= Seq::empty());
                assert(full_slots(all) =~= (match all[0] {
                    Some(value) => seq![(0int, value)],
                    None => Seq::empty(),
                }));
            }
        }
        if let Some(slot) = slots.last_mut() {
            if let Some(value) = slot.as_mut() {
                values.push(value);
            }
        }
        return values;
    }
    proof {
        assert forall|front: Seq<Option<T>>, back: Seq<Option<T>>| #[trigger]
            full_slots(front + back) == full_slots(front) + shifted(
                full_slots(back),
                front.len() as int,
            ) by {
            lemma_full_slots_add(front, back);
        }
        assert(old(slots)@.subrange(0, (n / 2) as int) + old(slots)@.subrange((n / 2) as int, n as int)
            =~= old(slots)@);
    }
    let (front, back) = slots.split_at_mut(n / 2);
    let mut values = borrow_values(front);
    let mut others = borrow_values(back);
    values.append(&mut others);
    values
}

/// The entries with their indices raised by `by`.
spec fn shifted<T>(entries: Seq<(int, T)>, by: int) -> Seq<(int, T)> {
    entries.map_values(|entry: (int, T)| (entry.0 + by, entry.1))
}

proof fn lemma_full_slots_add<T>(front: Seq<Option<T>>, back: Seq<Option<T>>)
    ensures
        full_slots(front + back) == full_slots(front) + shifted(full_slots(back), front.len() as int),
    decreases back.len(),
{
    if back.len() == 0 {
        assert(front + back =~= front);
        assert(full_slots(front + back) =~= full_slots(front) + shifted(
            full_slots(back),
            front.len() as int,
        ));
    } else {
        lemma_full_slots_add(front, back.drop_last());
        assert((front + back).drop_last() =~= front + back.drop_last());
        assert(full_slots(front + back) =~= full_slots(front) + shifted(
            full_slots(back),
            front.len() as int,
        ));
    }
}

} // verus!
