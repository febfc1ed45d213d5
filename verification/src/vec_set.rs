//! Small sets of plain values, kept as a vector without repeats.
use vstd::prelude::*;

verus! {

/// A value that can be compared for equality in executable code.
pub trait SetElem: Copy + Sized {
    fn same(&self, other: &Self) -> (r: bool)
        ensures
            r == (*self == *other),
    ;
}

/// A finite set; iteration follows insertion order.
#[derive(Debug)]
pub struct VecSet<K: SetElem> {
    items: Vec<K>,
}

impl<K: SetElem> VecSet<K> {
    /// No member occurs twice; every value of this type keeps it.
    #[verifier::type_invariant]
    pub closed spec fn inv(&self) -> bool {
        self.items@.no_duplicates()
    }

    /// The members, in iteration order.
    pub closed spec fn elems(&self) -> Seq<K> {
        self.items@
    }

    pub open spec fn view(&self) -> Set<K> {
        self.elems().to_set()
    }

    pub proof fn lemma_elems(&self)
        requires
            self.inv(),
        ensures
            self.elems().no_duplicates(),
            self@.finite(),
            self@.len() == self.elems().len(),
            forall|x: K| #[trigger] self@.contains(x) <==> self.elems().contains(x),
    {
        self.elems().unique_seq_to_set();
    }

    pub fn new() -> (r: VecSet<K>)
        ensures
            r@ == Set::<K>::empty(),
            r.elems() == Seq::<K>::empty(),
    {
        let r = VecSet { items: Vec::new() };
        assert(r@ =~= Set::<K>::empty());
        r
    }

    /// The set of the members of `items`, repeats dropped, first occurrences kept in order.
    pub fn from_slice(items: &[K]) -> (r: VecSet<K>)
        ensures
            r@ == items@.to_set(),
    {
        let mut r = VecSet::new();
        let mut i: usize = 0;
        while i < items.len()
            invariant
                i <= items@.len(),
                r@ == items@.take(i as int).to_set(),
            decreases items@.len() - i,
        {
            r.insert(items[i]);
            proof {
                let t0 = items@.take(i as int);
                let t1 = items@.take(i + 1);
                assert(t1 =~= t0.push(items@[i as int]));
                assert forall|y: K| r@.contains(y) <==> t1.to_set().contains(y) by {
                    vstd::seq_lib::lemma_seq_contains_after_push(t0, items@[i as int], y);
                }
                assert(r@ =~= t1.to_set());
            }
            i = i + 1;
        }
        assert(items@.take(items@.len() as int) =~= items@);
        r
    }

    pub fn contains(&self, x: &K) -> (r: bool)
        ensures
            r == self@.contains(*x),
    {
        proof {
            use_type_invariant(&*self);
            self.lemma_elems();
        }
        let mut i: usize = 0;
        while i < self.items.len()
            invariant
                i <= self.items@.len(),
                forall|j: int| 0 <= j < i ==> self.items@[j] != *x,
            decreases self.items@.len() - i,
        {
            if self.items[i].same(x) {
                assert(self.elems().contains(*x));
                return true;
            }
            i = i + 1;
        }
        false
    }

    /// Adds `x`; returns whether it was new.
    pub fn insert(&mut self, x: K) -> (r: bool)
        ensures
            r == !old(self)@.contains(x),
            final(self)@ == old(self)@.insert(x),
            r ==> final(self).elems() == old(self).elems().push(x),
            !r ==> final(self).elems() == old(self).elems(),
    {
        proof {
            use_type_invariant(&*self);
            self.lemma_elems();
        }
        if self.contains(&x) {
            proof {
                assert(self@.insert(x) =~= self@);
            }
            false
        } else {
            let ghost old_items = self.items@;
            let mut items = Vec::new();
            std::mem::swap(&mut items, &mut self.items);
            items.push(x);
            proof {
                assert(items@ == old_items.push(x));
                assert(items@.no_duplicates());
            }
            self.items = items;
            proof {
                assert(old(self).items@ == old_items);
                assert forall|y: K| self@.contains(y) <==> old(self)@.insert(x).contains(y) by {
                    vstd::seq_lib::lemma_seq_contains_after_push(old_items, x, y);
                }
                assert(self@ =~= old(self)@.insert(x));
            }
            true
        }
    }

    /// Removes `x`; returns whether it was present.
    pub fn remove(&mut self, x: &K) -> (r: bool)
        ensures
            r == old(self)@.contains(*x),
            final(self)@ == old(self)@.remove(*x),
    {
        proof {
            use_type_invariant(&*self);
            self.lemma_elems();
        }
        let ghost old_items = self.items@;
        assert(old(self).items@ == old_items);
        let mut i: usize = 0;
        while i < self.items.len()
            invariant
                self.items@ == old_items,
                old(self).items@ == old_items,
                old_items.no_duplicates(),
                i <= self.items@.len(),
                forall|j: int| 0 <= j < i ==> self.items@[j] != *x,
            decreases self.items@.len() - i,
        {
            if self.items[i].same(x) {
                assert(old_items[i as int] == *x);
                assert(old_items.contains(*x));
                let mut items = Vec::new();
                std::mem::swap(&mut items, &mut self.items);
                items.remove(i);
                proof {
                    let r = old_items.remove(i as int);
                    assert(items@ == r);
                    assert forall|a: int, b: int| 0 <= a < b < r.len() implies r[a] != r[b] by {
                        let a0 = if a < i { a } else { a + 1 };
                        let b0 = if b < i { b } else { b + 1 };
                        assert(r[a] == old_items[a0]);
                        assert(r[b] == old_items[b0]);
                    }
                }
                self.items = items;
                proof {
                    assert forall|y: K| self@.contains(y) <==> old(self)@.remove(*x).contains(y) by {
                        if old_items.contains(y) && y != *x {
                            let j = choose|j: int| 0 <= j < old_items.len() && old_items[j] == y;
                            let j2 = if j < i { j } else { j - 1 };
                            assert(self.items@[j2] == y);
                        }
                        if self.items@.contains(y) {
                            let j = choose|j: int| 0 <= j < self.items@.len() && self.items@[j] == y;
                            let j0 = if j < i { j } else { j + 1 };
                            assert(old_items[j0] == y);
                            assert(j0 != i);
                            assert(y != *x);
                            assert(old_items.contains(y));
                        }
                    }
                    assert(self@ =~= old(self)@.remove(*x));
                }
                return true;
            }
            i = i + 1;
        }
        proof {
            assert(!old_items.contains(*x));
            assert(old(self)@.remove(*x) =~= old(self)@);
        }
        false
    }

    pub fn len(&self) -> (r: usize)
        ensures
            r == self@.len(),
    {
        proof {
            use_type_invariant(&*self);
            self.lemma_elems();
        }
        self.items.len()
    }

    pub fn is_empty(&self) -> (r: bool)
        ensures
            r == (self@.len() == 0),
    {
        proof {
            use_type_invariant(&*self);
            self.lemma_elems();
        }
        self.items.len() == 0
    }

    /// The members, in iteration order.
    pub fn items(&self) -> (r: &[K])
        ensures
            r@ == self.elems(),
            r@.no_duplicates(),
            r@.to_set() == self@,
    {
        proof {
            use_type_invariant(&*self);
        }
        self.items.as_slice()
    }

    /// The members of `self` that are not in `other`, in iteration order.
    pub fn difference(&self, other: &VecSet<K>) -> (r: Vec<K>)
        ensures
            r@.no_duplicates(),
            r@.to_set() == self@.difference(other@),
            forall|x: K| #[trigger] r@.contains(x) <==> self@.contains(x) && !other@.contains(x),
    {
        proof {
            use_type_invariant(&*self);
            self.lemma_elems();
        }
        let mut out: Vec<K> = Vec::new();
        let mut i: usize = 0;
        while i < self.items.len()
            invariant
                i <= self.items@.len(),
                self.items@.no_duplicates(),
                out@.no_duplicates(),
                forall|x: K| #[trigger] out@.contains(x) <==> (self.items@.take(i as int).contains(x)
                    && !other@.contains(x)),
            decreases self.items@.len() - i,
        {
            let x = self.items[i];
            let ghost prev = out@;
            if !other.contains(&x) {
                proof {
                    if prev.contains(x) {
                        let j = choose|j: int| 0 <= j < i && self.items@.take(i as int)[j] == x;
                        assert(self.items@[j] == self.items@[i as int]);
                    }
                }
                out.push(x);
            }
            proof {
                let t0 = self.items@.take(i as int);
                let t1 = self.items@.take(i + 1);
                assert(t1 =~= t0.push(x));
                assert forall|y: K| #[trigger] out@.contains(y) <==> (t1.contains(y) && !other@.contains(y)) by {
                    vstd::seq_lib::lemma_seq_contains_after_push(t0, x, y);
                    if !other@.contains(x) {
                        vstd::seq_lib::lemma_seq_contains_after_push(prev, x, y);
                    }
                }
            }
            i = i + 1;
        }
        proof {
            assert(self.items@.take(self.items@.len() as int) =~= self.items@);
            assert(out@.to_set() =~= self@.difference(other@));
        }
        out
    }

    /// A copy of this set with the same iteration order.
    pub fn copy(&self) -> (r: VecSet<K>)
        ensures
            r@ == self@,
            r.elems() == self.elems(),
    {
        proof {
            use_type_invariant(&*self);
        }
        let mut items: Vec<K> = Vec::new();
        let mut i: usize = 0;
        while i < self.items.len()
            invariant
                i <= self.items@.len(),
                items@ == self.items@.take(i as int),
            decreases self.items@.len() - i,
        {
            items.push(self.items[i]);
            assert(items@ =~= self.items@.take(i + 1));
            i = i + 1;
        }
        assert(items@ =~= self.items@);
        VecSet { items }
    }
}

impl<K: SetElem> Clone for VecSet<K> {
    fn clone(&self) -> (r: VecSet<K>)
        ensures
            r@ == self@,
            r.elems() == self.elems(),
    {
        self.copy()
    }
}

/// A value inserted is a member, and removing a value that was new before the insertion
/// gives back the set as it was.
pub proof fn law_insert_then_remove<K: SetElem>(s0: Set<K>, s1: Set<K>, s2: Set<K>, x: K)
    requires
        s1 == s0.insert(x),
        s2 == s1.remove(x),
        !s0.contains(x),
    ensures
        s1.contains(x),
        !s2.contains(x),
        s2 == s0,
{
    assert(s2 =~= s0);
}

} // verus!
