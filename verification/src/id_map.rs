//! Typed identifiers and a map that hands them out.
use vstd::prelude::*;
use std::marker::PhantomData;
use crate::assoc::{map_of, lemma_map_of_all, lemma_map_of_push, lemma_map_of_update, lemma_map_of_remove};

verus! {

/// An identifier for a value of type `T` stored in an `IdMap<T>`.
#[derive(Debug)]
pub struct Id<T> {
    value: u32,
    phantom: PhantomData<T>,
}

impl<T> View for Id<T> {
    type V = u32;

    closed spec fn view(&self) -> u32 {
        self.value
    }
}

impl<T> Id<T> {
    fn new(value: u32) -> (r: Id<T>)
        ensures
            r@ == value,
    {
        Id { value: value, phantom: PhantomData }
    }

    /// Returns the current id and advances this counter to the next one.
    fn inc(&mut self) -> (out: Id<T>)
        requires
            old(self)@ < u32::MAX,
        ensures
            out@ == old(self)@,
            final(self)@ == old(self)@ + 1,
    {
        let out = *self;
        self.value = self.value + 1;
        out
    }

    /// An id that no map hands out: maps stop short of it.
    pub fn invalid() -> (r: Id<T>)
        ensures
            r@ == u32::MAX,
    {
        Id::new(u32::MAX)
    }

    /// The id with number 0.
    pub fn first() -> (r: Id<T>)
        ensures
            r@ == 0,
    {
        Id::new(0)
    }

    /// The id with number `value`, as read back from outside the program.
    pub fn from_value(value: u32) -> (r: Id<T>)
        ensures
            r@ == value,
    {
        Id::new(value)
    }

    /// The raw number behind this id.
    pub fn value(&self) -> (r: u32)
        ensures
            r == self@,
    {
        self.value
    }

    /// Two ids are the same exactly when their numbers are.
    pub proof fn lemma_view_injective(a: Id<T>, b: Id<T>)
        requires
            a@ == b@,
        ensures
            a == b,
    {
    }
}

impl<T> Clone for Id<T> {
    fn clone(&self) -> (r: Id<T>)
        ensures
            r == *self,
    {
        *self
    }
}

impl<T> Copy for Id<T> {

}

impl<T> PartialEq for Id<T> {
    fn eq(&self, other: &Id<T>) -> (r: bool) {
        self.value == other.value
    }
}

impl<T> vstd::std_specs::cmp::PartialEqSpecImpl for Id<T> {
    open spec fn obeys_eq_spec() -> bool {
        true
    }

    open spec fn eq_spec(&self, other: &Id<T>) -> bool {
        self@ == other@
    }
}

impl<T> Eq for Id<T> {

}

/// The id with number `k`.
pub closed spec fn id_of<T>(k: u32) -> Id<T> {
    Id { value: k, phantom: PhantomData }
}

pub broadcast proof fn lemma_id_of<T>(k: u32)
    ensures
        #[trigger] id_of::<T>(k)@ == k,
{
}

pub broadcast proof fn lemma_id_of_view<T>(i: Id<T>)
    ensures
        #[trigger] id_of::<T>(i@) == i,
{
}

/// Exec equality of ids, with its meaning stated.
pub fn same_id<T>(a: &Id<T>, b: &Id<T>) -> (r: bool)
    ensures
        r == (*a == *b),
        r == (a@ == b@),
{
    proof {
        if a@ == b@ {
            Id::lemma_view_injective(*a, *b);
        }
    }
    a.value == b.value
}

/// A map from freshly issued ids to values. Ids are issued in increasing order and never
/// reused, so the entries are kept in the order they were added.
#[derive(Debug, Clone)]
pub struct IdMap<T> {
    ids: Vec<Id<T>>,
    vals: Vec<T>,
    next_id: Id<T>,
}

impl<T> IdMap<T> {
    /// The ids of the entries, in the order they were added.
    pub closed spec fn id_seq(&self) -> Seq<Id<T>> {
        self.ids@
    }

    /// The numbers of the ids of the entries, in the order they were added.
    pub closed spec fn key_seq(&self) -> Seq<u32> {
        self.ids@.map_values(|i: Id<T>| i@)
    }

    /// The values of the entries, in the order they were added.
    pub closed spec fn value_seq(&self) -> Seq<T> {
        self.vals@
    }

    /// The id that the next `add` hands out.
    pub closed spec fn next(&self) -> u32 {
        self.next_id@
    }

    pub closed spec fn wf(&self) -> bool {
        &&& self.ids@.len() == self.vals@.len()
        &&& forall|i: int, j: int|
            0 <= i < j < self.ids@.len() ==> #[trigger] self.ids@[i]@ < #[trigger] self.ids@[j]@
        &&& forall|i: int| 0 <= i < self.ids@.len() ==> #[trigger] self.ids@[i]@ < self.next_id@
    }

    /// The entries as a map from raw id to value.
    pub open spec fn view(&self) -> Map<u32, T> {
        map_of(self.key_seq(), self.value_seq())
    }

    pub open spec fn spec_len(&self) -> nat {
        self.key_seq().len()
    }

    proof fn lemma_wf_facts(&self)
        requires
            self.wf(),
        ensures
            self.key_seq().len() == self.value_seq().len(),
            self.key_seq().no_duplicates(),
            forall|i: int, j: int|
                0 <= i < j < self.key_seq().len() ==> #[trigger] self.key_seq()[i]
                    < #[trigger] self.key_seq()[j],
            forall|i: int|
                0 <= i < self.key_seq().len() ==> #[trigger] self.key_seq()[i] < self.next(),
            forall|x: u32| #[trigger] self@.contains_key(x) <==> self.key_seq().contains(x),
            forall|i: int|
                0 <= i < self.key_seq().len() ==> #[trigger] self@[self.key_seq()[i]]
                    == self.value_seq()[i],
            forall|x: u32| #[trigger] self@.contains_key(x) ==> x < self.next(),
    {
        let ks = self.key_seq();
        assert forall|i: int, j: int| 0 <= i < j < ks.len() implies #[trigger] ks[i]
            < #[trigger] ks[j] by {
            assert(ks[i] == self.ids@[i]@);
            assert(ks[j] == self.ids@[j]@);
        }
        assert forall|i: int| 0 <= i < ks.len() implies #[trigger] ks[i] < self.next() by {
            assert(ks[i] == self.ids@[i]@);
        }
        assert forall|i: int, j: int| 0 <= i < ks.len() && 0 <= j < ks.len() && i != j implies ks[i]
            != ks[j] by {
            if i < j {
                assert(ks[i] < ks[j]);
            } else {
                assert(ks[j] < ks[i]);
            }
        }
        lemma_map_of_all(ks, self.value_seq());
        assert forall|x: u32| #[trigger] self@.contains_key(x) implies x < self.next() by {
            let i = choose|i: int| 0 <= i < ks.len() && ks[i] == x;
        }
    }

    /// Every entry lies in the map's view.
    pub proof fn lemma_view(&self)
        requires
            self.wf(),
        ensures
            self.key_seq().len() == self.value_seq().len(),
            self.id_seq().len() == self.key_seq().len(),
            forall|i: int| 0 <= i < self.key_seq().len() ==> #[trigger] self.id_seq()[i]@ == self.key_seq()[i],
            self.key_seq().no_duplicates(),
            forall|x: u32| #[trigger] self@.contains_key(x) <==> self.key_seq().contains(x),
            forall|i: int|
                0 <= i < self.key_seq().len() ==> #[trigger] self@[self.key_seq()[i]]
                    == self.value_seq()[i],
            forall|x: u32| #[trigger] self@.contains_key(x) ==> x < self.next(),
    {
        self.lemma_wf_facts();
    }

    /// Two maps with the same keys, one holding `v` under `k` in place of the other's
    /// value, hold the same values in the same order but that one.
    pub proof fn lemma_values_replaced(a: IdMap<T>, b: IdMap<T>, k: u32, v: T)
        requires
            a.wf(),
            b.wf(),
            a.key_seq() == b.key_seq(),
            a@.contains_key(k),
            b@ == a@.insert(k, v),
        ensures
            b.value_seq() == a.value_seq().update(a.key_seq().index_of(k), v),
            0 <= a.key_seq().index_of(k) < a.key_seq().len(),
            a.key_seq()[a.key_seq().index_of(k)] == k,
    {
        a.lemma_wf_facts();
        b.lemma_wf_facts();
        let ks = a.key_seq();
        ks.index_of_first(k);
        assert(ks.contains(k));
        let idx = ks.index_of(k);
        assert forall|i: int| 0 <= i < ks.len() implies #[trigger] b.value_seq()[i] == a.value_seq().update(idx, v)[i] by {
            assert(b@[b.key_seq()[i]] == b.value_seq()[i]);
            assert(a@[a.key_seq()[i]] == a.value_seq()[i]);
            if i != idx {
                assert(ks[i] != k);
            }
        }
        assert(b.value_seq() =~= a.value_seq().update(idx, v));
    }

    /// Two sound maps with the same keys in the same order and the same entries hold the
    /// same ids and values in the same order.
    pub proof fn lemma_same_view(a: IdMap<T>, b: IdMap<T>)
        requires
            a.wf(),
            b.wf(),
            a.key_seq() == b.key_seq(),
            a@ == b@,
        ensures
            a.id_seq() == b.id_seq(),
            a.value_seq() == b.value_seq(),
    {
        a.lemma_wf_facts();
        b.lemma_wf_facts();
        let ks = a.key_seq();
        assert forall|i: int| 0 <= i < ks.len() implies #[trigger] a.value_seq()[i] == b.value_seq()[i] by {
            assert(a@[a.key_seq()[i]] == a.value_seq()[i]);
            assert(b@[b.key_seq()[i]] == b.value_seq()[i]);
        }
        assert forall|i: int| 0 <= i < ks.len() implies #[trigger] a.id_seq()[i] == b.id_seq()[i] by {
            assert(a.id_seq()[i]@ == ks[i]);
            assert(b.id_seq()[i]@ == ks[i]);
            Id::lemma_view_injective(a.id_seq()[i], b.id_seq()[i]);
        }
        assert(a.value_seq() =~= b.value_seq());
        assert(a.id_seq() =~= b.id_seq());
    }

    /// An empty map whose first id is 0.
    pub fn new() -> (r: IdMap<T>)
        ensures
            r.wf(),
            r@ == Map::<u32, T>::empty(),
            r.key_seq() == Seq::<u32>::empty(),
            r.value_seq() == Seq::<T>::empty(),
            r.id_seq() == Seq::<Id<T>>::empty(),
            r.next() == 0,
    {
        let r = IdMap { ids: Vec::new(), vals: Vec::new(), next_id: Id::new(0) };
        assert(r.key_seq() =~= Seq::<u32>::empty());
        assert(r@ =~= Map::<u32, T>::empty());
        r
    }

    /// The ids and values of all entries, in the order they were added.
    pub fn map(&self) -> (r: (&[Id<T>], &[T]))
        requires
            self.wf(),
        ensures
            r.0@ == self.id_seq(),
            r.0@.map_values(|i: Id<T>| i@) == self.key_seq(),
            r.1@ == self.value_seq(),
            r.0@.len() == r.1@.len(),
    {
        (self.ids.as_slice(), self.vals.as_slice())
    }

    /// The ids of all entries, in the order they were added.
    pub fn keys(&self) -> (r: &[Id<T>])
        requires
            self.wf(),
        ensures
            r@ == self.id_seq(),
            r@.map_values(|i: Id<T>| i@) == self.key_seq(),
            r@.len() == self.key_seq().len(),
    {
        self.ids.as_slice()
    }

    /// The values of all entries, in the order they were added.
    pub fn values(&self) -> (r: &[T])
        requires
            self.wf(),
        ensures
            r@ == self.value_seq(),
            r@.len() == self.key_seq().len(),
    {
        self.vals.as_slice()
    }

    pub fn len(&self) -> (r: usize)
        requires
            self.wf(),
        ensures
            r == self.key_seq().len(),
    {
        self.ids.len()
    }

    /// Whether another id can still be handed out.
    pub fn has_room(&self) -> (r: bool)
        ensures
            r == (self.next() < u32::MAX),
    {
        self.next_id.value() < u32::MAX
    }

    /// Stores `value` under a fresh id and returns that id.
    pub fn add(&mut self, value: T) -> (id: Id<T>)
        requires
            old(self).wf(),
            old(self).next() < u32::MAX,
        ensures
            final(self).wf(),
            id@ == old(self).next(),
            !old(self)@.contains_key(id@),
            final(self)@ == old(self)@.insert(id@, value),
            final(self).key_seq() == old(self).key_seq().push(id@),
            final(self).id_seq() == old(self).id_seq().push(id),
            final(self).value_seq() == old(self).value_seq().push(value),
            final(self).next() == old(self).next() + 1,
    {
        proof {
            self.lemma_wf_facts();
        }
        let ghost old_keys = self.key_seq();
        let ghost old_vals = self.value_seq();
        let id = self.next_id.inc();
        self.ids.push(id);
        self.vals.push(value);
        proof {
            assert(self.key_seq() =~= old_keys.push(id@));
            lemma_map_of_push(old_keys, old_vals, id@, value);
        }
        id
    }

    /// The position of `id` among the entries.
    fn find(&self, id: &Id<T>) -> (r: Option<usize>)
        requires
            self.wf(),
        ensures
            match r {
                Some(i) => i < self.key_seq().len() && self.key_seq()[i as int] == id@,
                None => !self.key_seq().contains(id@),
            },
    {
        let mut i: usize = 0;
        while i < self.ids.len()
            invariant
                self.wf(),
                i <= self.ids@.len(),
                forall|j: int| 0 <= j < i ==> self.key_seq()[j] != id@,
            decreases self.ids@.len() - i,
        {
            if self.ids[i].value == id.value {
                return Some(i);
            }
            i = i + 1;
        }
        None
    }

    pub fn contains_key(&self, id: &Id<T>) -> (r: bool)
        requires
            self.wf(),
        ensures
            r == self@.contains_key(id@),
    {
        proof {
            self.lemma_wf_facts();
        }
        match self.find(id) {
            Some(_) => true,
            None => false,
        }
    }

    /// The value stored under `id`, if any.
    pub fn get(&self, id: &Id<T>) -> (r: Option<&T>)
        requires
            self.wf(),
        ensures
            match r {
                Some(v) => self@.contains_key(id@) && *v == self@[id@],
                None => !self@.contains_key(id@),
            },
    {
        proof {
            self.lemma_wf_facts();
        }
        match self.find(id) {
            Some(i) => Some(&self.vals[i]),
            None => None,
        }
    }

    /// Replaces the value stored under `id`; returns false, and changes nothing, where there
    /// is no such entry.
    pub fn set(&mut self, id: &Id<T>, value: T) -> (r: bool)
        requires
            old(self).wf(),
        ensures
            final(self).wf(),
            r == old(self)@.contains_key(id@),
            final(self)@ == (if r {
                old(self)@.insert(id@, value)
            } else {
                old(self)@
            }),
            final(self).key_seq() == old(self).key_seq(),
            final(self).id_seq() == old(self).id_seq(),
            final(self).next() == old(self).next(),
            r ==> final(self).value_seq() == old(self).value_seq().update(
                old(self).key_seq().index_of(id@),
                value,
            ),
            !r ==> final(self).value_seq() == old(self).value_seq(),
    {
        proof {
            self.lemma_wf_facts();
        }
        match self.find(id) {
            Some(i) => {
                let ghost ks = self.key_seq();
                let ghost vs = self.value_seq();
                self.vals.set(i, value);
                proof {
                    lemma_map_of_update(ks, vs, i as int, value);
                    assert(ks.index_of(id@) == i) by {
                        ks.index_of_first(id@);
                        assert(ks.contains(id@));
                    }
                }
                true
            },
            None => false,
        }
    }

    /// A mutable reference to the value stored under `id`, if any.
    pub fn get_mut(&mut self, id: &Id<T>) -> (r: Option<&mut T>)
        requires
            old(self).wf(),
        ensures
            final(self).wf(),
            final(self).key_seq() == old(self).key_seq(),
            final(self).id_seq() == old(self).id_seq(),
            final(self).next() == old(self).next(),
            match r {
                Some(v) => {
                    &&& old(self)@.contains_key(id@)
                    &&& *v == old(self)@[id@]
                    &&& final(self)@ == old(self)@.insert(id@, *final(v))
                },
                None => !old(self)@.contains_key(id@) && final(self)@ == old(self)@,
            },
    {
        proof {
            self.lemma_wf_facts();
        }
        match self.find(id) {
            Some(i) => {
                let ghost ks = self.key_seq();
                let ghost vs = self.value_seq();
                proof {
                    assert forall|x: T| map_of(ks, vs.update(i as int, x)) == map_of(ks, vs).insert(ks[i as int], x) by {
                        lemma_map_of_update(ks, vs, i as int, x);
                    }
                }
                Some(&mut self.vals[i])
            },
            None => None,
        }
    }

    /// All values, for changing them in place.
    pub fn values_mut(&mut self) -> (r: &mut [T])
        requires
            old(self).wf(),
        ensures
            r@ == old(self).value_seq(),
            final(self).key_seq() == old(self).key_seq(),
            final(self).next() == old(self).next(),
            final(self).value_seq() == final(r)@,
    {
        self.vals.as_mut_slice()
    }

    /// The ids of all entries with their values, the values open for changing in place.
    pub fn iter_mut(&mut self) -> (r: (&[Id<T>], &mut [T]))
        requires
            old(self).wf(),
        ensures
            r.0@.map_values(|i: Id<T>| i@) == old(self).key_seq(),
            r.1@ == old(self).value_seq(),
            final(self).key_seq() == old(self).key_seq(),
            final(self).next() == old(self).next(),
            final(self).value_seq() == final(r.1)@,
    {
        (self.ids.as_slice(), self.vals.as_mut_slice())
    }

    /// Takes out the value stored under `id`, if any.
    pub fn remove(&mut self, id: &Id<T>) -> (r: Option<T>)
        requires
            old(self).wf(),
        ensures
            final(self).wf(),
            final(self).next() == old(self).next(),
            final(self)@ == old(self)@.remove(id@),
            match r {
                Some(v) => old(self)@.contains_key(id@) && v == old(self)@[id@],
                None => !old(self)@.contains_key(id@) && final(self).key_seq() == old(
                    self,
                ).key_seq() && final(self).id_seq() == old(self).id_seq() && final(self).value_seq() == old(self).value_seq(),
            },
            r is Some ==> final(self).key_seq() == old(self).key_seq().remove(
                old(self).key_seq().index_of(id@),
            ) && final(self).id_seq() == old(self).id_seq().remove(
                old(self).key_seq().index_of(id@),
            ) && final(self).value_seq() == old(self).value_seq().remove(
                old(self).key_seq().index_of(id@),
            ),
    {
        proof {
            self.lemma_wf_facts();
        }
        match self.find(id) {
            Some(i) => {
                let ghost ks = self.key_seq();
                let ghost vs = self.value_seq();
                let ghost old_ids = self.ids@;
                self.ids.remove(i);
                let v = self.vals.remove(i);
                proof {
                    assert(self.key_seq() =~= ks.remove(i as int));
                    lemma_map_of_remove(ks, vs, i as int);
                    assert(ks.index_of(id@) == i) by {
                        ks.index_of_first(id@);
                        assert(ks.contains(id@));
                    }
                    assert forall|a: int, b: int|
                        0 <= a < b < self.ids@.len() implies #[trigger] self.ids@[a]@
                        < #[trigger] self.ids@[b]@ by {
                        let a0 = if a < i { a } else { a + 1 };
                        let b0 = if b < i { b } else { b + 1 };
                        assert(self.ids@[a] == old_ids[a0]);
                        assert(self.ids@[b] == old_ids[b0]);
                    }
                    assert forall|a: int| 0 <= a < self.ids@.len() implies #[trigger] self.ids@[a]@
                        < self.next_id@ by {
                        let a0 = if a < i { a } else { a + 1 };
                        assert(self.ids@[a] == old_ids[a0]);
                    }
                }
                Some(v)
            },
            None => {
                proof {
                    assert(old(self)@.remove(id@) =~= old(self)@);
                }
                None
            },
        }
    }

    /// Both maps hold the same values under the same ids, and hand out the same id next.
    pub open spec fn same_entries(&self, o: IdMap<T>) -> bool {
        &&& self.id_seq() == o.id_seq()
        &&& self.key_seq() == o.key_seq()
        &&& self.value_seq() == o.value_seq()
        &&& self.next() == o.next()
    }

    /// A map with the same entries as a sound one is sound.
    pub proof fn lemma_same_entries_wf(&self, o: IdMap<T>)
        requires
            self.wf(),
            self.same_entries(o),
        ensures
            o.wf(),
    {
    }

    /// A map with the same ids, the same next id, and `vals` as its values in order.
    pub fn with_values(&self, vals: Vec<T>) -> (r: IdMap<T>)
        requires
            self.wf(),
            vals@.len() == self.value_seq().len(),
        ensures
            r.wf(),
            r.id_seq() == self.id_seq(),
            r.key_seq() == self.key_seq(),
            r.value_seq() == vals@,
            r.next() == self.next(),
            r@ == map_of(self.key_seq(), vals@),
    {
        let mut ids: Vec<Id<T>> = Vec::new();
        let mut i: usize = 0;
        while i < self.ids.len()
            invariant
                i <= self.ids@.len(),
                ids@ == self.ids@.take(i as int),
            decreases self.ids@.len() - i,
        {
            ids.push(self.ids[i]);
            assert(ids@ =~= self.ids@.take(i + 1));
            i = i + 1;
        }
        assert(ids@ =~= self.ids@);
        let r = IdMap { ids, vals, next_id: self.next_id };
        assert(r.key_seq() =~= self.key_seq());
        r
    }

    /// A map holding `values` under the ids 0, 1, 2, ... in order.
    pub fn from_values(values: Vec<T>) -> (r: IdMap<T>)
        requires
            values@.len() < u32::MAX,
        ensures
            r.wf(),
            r.value_seq() == values@,
            r.key_seq() == Seq::new(values@.len(), |i: int| i as u32),
            r.id_seq().len() == values@.len(),
            r.next() == values@.len(),
    {
        let mut r = IdMap::new();
        let mut values = values;
        let ghost all = values@;
        let n = values.len();
        let mut k: usize = 0;
        while k < n
            invariant
                r.wf(),
                n == all.len(),
                n < u32::MAX,
                k <= n,
                r.next() == k,
                r.value_seq() == all.take(k as int),
                r.key_seq() == Seq::new(k as nat, |i: int| i as u32),
                values@ == all.skip(k as int),
            decreases n - k,
        {
            let v = values.remove(0);
            let id = r.add(v);
            proof {
                assert(r.value_seq() =~= all.take(k + 1));
                assert(r.key_seq() =~= Seq::new((k + 1) as nat, |i: int| i as u32));
                assert(values@ =~= all.skip(k + 1));
            }
            k = k + 1;
        }
        proof {
            assert(all.take(n as int) =~= all);
        }
        r
    }
}

/// What `add` stores is what `get` gives back under the new id, the id was not in use, the
/// other entries are untouched, and no later `add` hands the id out again.
pub proof fn law_add_then_get<T>(m: IdMap<T>, after: IdMap<T>, id: Id<T>, v: T)
    requires
        m.wf(),
        id@ == m.next(),
        after@ == m@.insert(id@, v),
        after.next() == m.next() + 1,
    ensures
        after@.contains_key(id@),
        after@[id@] == v,
        !m@.contains_key(id@),
        forall|k: u32| #[trigger] m@.contains_key(k) ==> after@.contains_key(k) && after@[k] == m@[k],
        forall|k: u32| #[trigger] after@.contains_key(k) ==> k < after.next(),
{
    m.lemma_view();
    assert forall|k: u32| #[trigger] m@.contains_key(k) implies after@.contains_key(k) && after@[k] == m@[k] by {
        assert(k < m.next());
    }
}

/// After `remove`, the id is gone and every other entry stays.
pub proof fn law_remove_then_absent<T>(m: IdMap<T>, after: IdMap<T>, k: u32)
    requires
        after@ == m@.remove(k),
    ensures
        !after@.contains_key(k),
        forall|j: u32| j != k && #[trigger] m@.contains_key(j) ==> after@.contains_key(j) && after@[j] == m@[j],
{
}

/// Removing the id that `add` just handed out gives back the value added and leaves the
/// map as it was before the add.
pub proof fn law_add_then_remove<T>(m0: IdMap<T>, m1: IdMap<T>, m2: IdMap<T>, id: Id<T>, v: T, r: Option<T>)
    requires
        m0.wf(),
        id@ == m0.next(),
        m1@ == m0@.insert(id@, v),
        m2@ == m1@.remove(id@),
        match r {
            Some(x) => m1@.contains_key(id@) && x == m1@[id@],
            None => !m1@.contains_key(id@),
        },
    ensures
        r == Some(v),
        m2@ == m0@,
{
    m0.lemma_view();
    assert(!m0@.contains_key(id@));
    assert(m2@ =~= m0@);
}

} // verus!
