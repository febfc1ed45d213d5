//! A stack of modifications to a part's tag set, applied in the order they were added.
use vstd::prelude::*;
use crate::id_map::{Id, IdMap, same_id};
use crate::part::{PartTag, TagMod, TagModId};
use crate::vec_set::VecSet;

verus! {

/// The tag set after one modification.
pub open spec fn apply_mod(tags: Set<PartTag>, m: TagMod) -> Set<PartTag> {
    match m {
        TagMod::Insert(t) => tags.insert(t),
        TagMod::Remove(t) => tags.remove(t),
    }
}

/// The tag set after the modifications of `mods`, first to last.
pub open spec fn apply_mods(tags: Set<PartTag>, mods: Seq<TagMod>) -> Set<PartTag>
    decreases mods.len(),
{
    if mods.len() == 0 {
        tags
    } else {
        apply_mod(apply_mods(tags, mods.drop_last()), mods.last())
    }
}

impl TagMod {
    /// Applies this modification to `tags`.
    pub fn apply(&self, tags: &mut VecSet<PartTag>)
        ensures
            final(tags)@ == apply_mod(old(tags)@, *self),
    {
        match self {
            TagMod::Insert(t) => {
                tags.insert(*t);
            },
            TagMod::Remove(t) => {
                tags.remove(t);
            },
        }
    }
}

#[derive(Debug, Clone)]
pub struct ModStack {
    mods: IdMap<TagMod>,
    mod_order: Vec<Id<TagMod>>,
}

impl ModStack {
    pub closed spec fn wf(&self) -> bool {
        &&& self.mods.wf()
        &&& self.mod_order@.map_values(|i: Id<TagMod>| i@) == self.mods.key_seq()
    }

    /// The modifications, in the order they apply.
    pub closed spec fn mod_seq(&self) -> Seq<TagMod> {
        self.mods.value_seq()
    }

    /// The modifications by id.
    pub closed spec fn mod_map(&self) -> Map<u32, TagMod> {
        self.mods@
    }

    /// The position of the modification with id `k` in `mod_seq`.
    pub closed spec fn mod_index(&self, k: u32) -> int {
        self.mods.key_seq().index_of(k)
    }

    /// The id that the next `add` hands out.
    pub closed spec fn next(&self) -> u32 {
        self.mods.next()
    }

    /// Whether another modification can still be given an id.
    pub fn next_below_max(&self) -> (r: bool)
        ensures
            r == (self.next() < u32::MAX),
    {
        self.mods.has_room()
    }

    /// Both stacks hold the same modifications under the same ids, in the same order.
    pub open spec fn same_mods(&self, o: ModStack) -> bool {
        &&& self.mod_seq() == o.mod_seq()
        &&& self.mod_map() == o.mod_map()
        &&& self.next() == o.next()
        &&& forall|k: u32| #[trigger] self.mod_index(k) == o.mod_index(k)
    }

    /// A copy of this stack: the same modifications under the same ids, in the same order.
    pub fn duplicate(&self) -> (r: ModStack)
        requires
            self.wf(),
        ensures
            r.wf(),
            r.same_mods(*self),
    {
        let vals = self.mods.values();
        let mut copy: Vec<TagMod> = Vec::new();
        let mut i: usize = 0;
        while i < vals.len()
            invariant
                i <= vals@.len(),
                copy@ == vals@.take(i as int),
            decreases vals@.len() - i,
        {
            copy.push(vals[i]);
            assert(copy@ =~= vals@.take(i + 1));
            i = i + 1;
        }
        assert(copy@ =~= vals@);
        let mods = self.mods.with_values(copy);
        let mut order: Vec<Id<TagMod>> = Vec::new();
        let mut j: usize = 0;
        while j < self.mod_order.len()
            invariant
                j <= self.mod_order@.len(),
                order@ == self.mod_order@.take(j as int),
            decreases self.mod_order@.len() - j,
        {
            order.push(self.mod_order[j]);
            assert(order@ =~= self.mod_order@.take(j + 1));
            j = j + 1;
        }
        assert(order@ =~= self.mod_order@);
        ModStack { mods, mod_order: order }
    }

    pub fn new() -> (r: ModStack)
        ensures
            r.wf(),
            r.mod_seq() == Seq::<TagMod>::empty(),
            r.mod_map() == Map::<u32, TagMod>::empty(),
            r.next() == 0,
    {
        let r = ModStack { mods: IdMap::new(), mod_order: Vec::new() };
        assert(r.mod_order@.map_values(|i: Id<TagMod>| i@) =~= r.mods.key_seq());
        r
    }

    /// `base` with every modification applied in order.
    pub fn eval(&self, base: VecSet<PartTag>) -> (r: VecSet<PartTag>)
        requires
            self.wf(),
        ensures
            r@ == apply_mods(base@, self.mod_seq()),
    {
        let mut value = base;
        let ghost ms = self.mods.value_seq();
        proof {
            self.mods.lemma_view();
            assert(ms.take(0) =~= Seq::<TagMod>::empty());
        }
        let mut i: usize = 0;
        while i < self.mod_order.len()
            invariant
                self.wf(),
                ms == self.mods.value_seq(),
                ms.len() == self.mod_order@.len(),
                i <= self.mod_order@.len(),
                value@ == apply_mods(base@, ms.take(i as int)),
                forall|j: int| 0 <= j < ms.len() ==> #[trigger] self.mods@[self.mods.key_seq()[j]] == ms[j],
                forall|j: int| 0 <= j < ms.len() ==> self.mods@.contains_key(#[trigger] self.mods.key_seq()[j]),
            decreases self.mod_order@.len() - i,
        {
            let id = self.mod_order[i];
            assert(self.mods.key_seq()[i as int] == id@);
            let m = self.mods.get(&id).unwrap();
            m.apply(&mut value);
            assert(ms.take(i + 1).drop_last() =~= ms.take(i as int));
            i = i + 1;
        }
        assert(ms.take(ms.len() as int) =~= ms);
        value
    }

    /// The modifications, by id.
    pub fn mods(&self) -> (r: &IdMap<TagMod>)
        ensures
            r@ == self.mod_map(),
            r.value_seq() == self.mod_seq(),
    {
        &self.mods
    }

    /// Adds a modification after all others; returns its id.
    pub fn add(&mut self, m: TagMod) -> (id: TagModId)
        requires
            old(self).wf(),
            old(self).next() < u32::MAX,
        ensures
            final(self).wf(),
            id@ == old(self).next(),
            final(self).next() == old(self).next() + 1,
            final(self).mod_seq() == old(self).mod_seq().push(m),
            final(self).mod_map() == old(self).mod_map().insert(id@, m),
            final(self).mod_index(id@) == old(self).mod_seq().len(),
    {
        proof {
            self.mods.lemma_view();
        }
        let id = self.mods.add(m);
        self.mod_order.push(id);
        assert(self.mod_order@.map_values(|i: Id<TagMod>| i@) =~= self.mods.key_seq());
        proof {
            self.mods.lemma_view();
            let ks = self.mods.key_seq();
            ks.index_of_first(id@);
            assert(ks[ks.len() - 1] == id@);
            assert(ks.contains(id@));
        }
        id
    }

    /// Removes the modification with this id; returns whether there was one.
    pub fn remove(&mut self, id: TagModId) -> (r: bool)
        requires
            old(self).wf(),
        ensures
            final(self).wf(),
            r == old(self).mod_map().contains_key(id@),
            final(self).mod_map() == old(self).mod_map().remove(id@),
            final(self).next() == old(self).next(),
            r ==> final(self).mod_seq() == old(self).mod_seq().remove(old(self).mod_index(id@)),
            !r ==> final(self).mod_seq() == old(self).mod_seq(),
    {
        let ghost old_order = self.mod_order@;
        match self.mods.remove(&id) {
            None => false,
            Some(_) => {
                let ghost ks = old(self).mods.key_seq();
                let ghost ix = ks.index_of(id@);
                proof {
                    old(self).mods.lemma_view();
                    ks.index_of_first(id@);
                    assert(ks.contains(id@));
                }
                let mut i: usize = 0;
                while i < self.mod_order.len() && !same_id(&self.mod_order[i], &id)
                    invariant
                        self.mod_order@ == old_order,
                        old_order.map_values(|i: Id<TagMod>| i@) == ks,
                        0 <= ix < ks.len(),
                        ks[ix] == id@,
                        forall|j: int| 0 <= j < ix ==> ks[j] != id@,
                        i <= ix,
                    decreases ix - i,
                {
                    assert(i != ix);
                    i = i + 1;
                }
                assert(i == ix) by {
                    assert(old_order[i as int]@ == ks[i as int]);
                }
                self.mod_order.remove(i);
                assert(self.mod_order@.map_values(|i: Id<TagMod>| i@) =~= ks.remove(ix));
                true
            },
        }
    }
}

/// Adding a modification and then removing it under the id it was given succeeds and
/// leaves the modifications, and so the tags they give, as they were; removing it a second
/// time finds nothing and changes nothing.
pub proof fn law_add_then_remove(
    s0: ModStack,
    s1: ModStack,
    s2: ModStack,
    s3: ModStack,
    m: TagMod,
    id: TagModId,
    r1: bool,
    r2: bool,
)
    requires
        s0.wf(),
        id@ == s0.next(),
        s1.mod_seq() == s0.mod_seq().push(m),
        s1.mod_map() == s0.mod_map().insert(id@, m),
        s1.mod_index(id@) == s0.mod_seq().len(),
        r1 == s1.mod_map().contains_key(id@),
        s2.mod_map() == s1.mod_map().remove(id@),
        r1 ==> s2.mod_seq() == s1.mod_seq().remove(s1.mod_index(id@)),
        !r1 ==> s2.mod_seq() == s1.mod_seq(),
        r2 == s2.mod_map().contains_key(id@),
        s3.mod_map() == s2.mod_map().remove(id@),
        !r2 ==> s3.mod_seq() == s2.mod_seq(),
    ensures
        r1,
        s2.mod_seq() == s0.mod_seq(),
        s2.mod_map() == s0.mod_map(),
        forall|tags: Set<PartTag>| apply_mods(tags, s2.mod_seq()) == apply_mods(tags, s0.mod_seq()),
        !r2,
        s3.mod_seq() == s2.mod_seq(),
        s3.mod_map() == s2.mod_map(),
{
    s0.mods.lemma_view();
    assert(!s0.mod_map().contains_key(id@));
    assert(s2.mod_seq() =~= s0.mod_seq());
    assert(s2.mod_map() =~= s0.mod_map());
    assert(s3.mod_map() =~= s2.mod_map());
}

/// A modification added last decides whether its tag is there.
pub proof fn law_last_mod_wins(tags: Set<PartTag>, mods: Seq<TagMod>, m: TagMod)
    ensures
        m matches TagMod::Insert(t) ==> apply_mods(tags, mods.push(m)).contains(t),
        m matches TagMod::Remove(t) ==> !apply_mods(tags, mods.push(m)).contains(t),
{
    assert(mods.push(m).drop_last() =~= mods);
}

} // verus!
