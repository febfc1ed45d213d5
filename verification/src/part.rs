//! Parts of a creature: hit points, tags, stats and the cards they hold.
use vstd::prelude::*;
use vstd::string::StringExecFns;
use crate::action::{local_events, spec_is_global, 
    Action, ActionData, ActionDataView, Event, EventData, EventDataView, MetaView, event_views,
    result_views,
};
use crate::card::Card;
use crate::entity::Entity;
use crate::error::Error;
use crate::id_map::{Id, IdMap};
use crate::mod_stack::{ModStack, apply_mods};
use crate::vec_set::{SetElem, VecSet};

verus! {

#[derive(Debug, Clone, Copy, PartialEq, Eq, Structural, Hash)]
pub enum PartTag {
    // State
    Vital,
    Broken,
    Open,
    // Universal: shape
    Head,
    Torso,
    Limb,
    // Universal: material
    Flesh,
    Machine,
    // Specialized: shape
    Arm,
    Leg,
}

impl SetElem for PartTag {
    fn same(&self, other: &PartTag) -> (r: bool) {
        *self == *other
    }
}

/// A change to a part's tag set.
#[derive(Debug, Clone, Copy, PartialEq, Eq, Structural, Hash)]
pub enum TagMod {
    Insert(PartTag),
    Remove(PartTag),
}

pub type TagModId = Id<TagMod>;

/// The event `d` carried by action `a`: same source, target and tags.
pub open spec fn carried<D>(a: MetaView<ActionDataView>, d: D) -> MetaView<D> {
    MetaView { source: a.source, target: a.target, tags: a.tags, data: d }
}

pub open spec fn min(a: int, b: int) -> int {
    if a <= b {
        a
    } else {
        b
    }
}

#[derive(Debug, Clone)]
pub struct Part {
    // Structure
    pub name: String,
    pub cards: IdMap<Card>,
    pub base_tags: VecSet<PartTag>,
    pub tag_mods: ModStack,
    pub entity: Entity,
    // Stats
    pub max_hp: i32,
    pub cur_hp: i32,
    /// Action points this part gives.
    pub thought: i32,
    /// Hand size this part gives.
    pub memory: i32,
    pub mp: i32,
}

/// How the part's own fields end up after an action.
pub struct PartStep {
    pub base_tags: Set<PartTag>,
    pub mods: Seq<TagMod>,
    pub cur_hp: int,
    pub result: Result<Seq<EventDataView>, Error>,
}

/// Three tags listed are the set of those three.
pub proof fn lemma_tag_list3(a: PartTag, b: PartTag, c: PartTag)
    ensures
        seq![a, b, c].to_set() == set![a, b, c],
{
    let s = seq![a, b, c];
    assert forall|t: PartTag| s.to_set().contains(t) <==> set![a, b, c].contains(t) by {
        if t == a {
            assert(s[0] == t);
        } else if t == b {
            assert(s[1] == t);
        } else if t == c {
            assert(s[2] == t);
        }
    }
    assert(s.to_set() =~= set![a, b, c]);
}

/// Four tags listed are the set of those four.
pub proof fn lemma_tag_list4(a: PartTag, b: PartTag, c: PartTag, d: PartTag)
    ensures
        seq![a, b, c, d].to_set() == set![a, b, c, d],
{
    let s = seq![a, b, c, d];
    assert forall|t: PartTag| s.to_set().contains(t) <==> set![a, b, c, d].contains(t) by {
        if t == a {
            assert(s[0] == t);
        } else if t == b {
            assert(s[1] == t);
        } else if t == c {
            assert(s[2] == t);
        } else if t == d {
            assert(s[3] == t);
        }
    }
    assert(s.to_set() =~= set![a, b, c, d]);
}

impl Part {
    pub open spec fn wf(&self) -> bool {
        &&& self.cards.wf()
        &&& self.tag_mods.wf()
        &&& self.entity.wf()
        &&& self.cur_hp <= self.max_hp
        &&& (0 <= self.cur_hp || self.cur_hp == self.max_hp)
    }

    /// Both parts have the same name, cards, tags, modifications, statuses and stats.
    pub open spec fn like(&self, o: Part) -> bool {
        &&& self.name@ == o.name@
        &&& self.cards.same_entries(o.cards)
        &&& self.base_tags@ == o.base_tags@
        &&& self.tag_mods.same_mods(o.tag_mods)
        &&& self.entity.status.same_entries(o.entity.status)
        &&& self.max_hp == o.max_hp
        &&& self.cur_hp == o.cur_hp
        &&& self.thought == o.thought
        &&& self.memory == o.memory
        &&& self.mp == o.mp
    }

    /// The tags of this part: its own tags with the modifications applied.
    pub open spec fn spec_tags(&self) -> Set<PartTag> {
        apply_mods(self.base_tags@, self.tag_mods.mod_seq())
    }

    /// What resolving an action with data `d` does to this part, tag events aside.
    pub open spec fn step(&self, d: ActionDataView) -> PartStep {
        let same = PartStep {
            base_tags: self.base_tags@,
            mods: self.tag_mods.mod_seq(),
            cur_hp: self.cur_hp as int,
            result: Ok(Seq::empty()),
        };
        match d {
            ActionDataView::SetTags { tags } => PartStep {
                base_tags: self.base_tags@.union(tags.to_set()),
                ..same
            },
            ActionDataView::ClearTags { tags } => PartStep {
                base_tags: self.base_tags@.difference(tags.to_set()),
                ..same
            },
            ActionDataView::AddTagMod { m } => PartStep {
                mods: self.tag_mods.mod_seq().push(m),
                result: Ok(seq![EventDataView::TagsModded { id: crate::id_map::id_of(self.tag_mods.next()) }]),
                ..same
            },
            ActionDataView::ClearTagMod { id } => PartStep {
                mods: if self.tag_mods.mod_map().contains_key(id@) {
                    self.tag_mods.mod_seq().remove(self.tag_mods.mod_index(id@))
                } else {
                    self.tag_mods.mod_seq()
                },
                result: Ok(seq![EventDataView::TagsUnmodded { id }]),
                ..same
            },
            ActionDataView::Hit { damage } => {
                let dmg = min(self.cur_hp as int, damage as int);
                if self.spec_tags().contains(PartTag::Broken) {
                    PartStep { result: Err(Error::BrokenPart), ..same }
                } else if dmg <= 0 {
                    PartStep { result: Ok(seq![EventDataView::ChangeHP { delta: 0 }]), ..same }
                } else {
                    PartStep {
                        cur_hp: self.cur_hp - dmg,
                        base_tags: if self.cur_hp - dmg <= 0 {
                            self.base_tags@.remove(PartTag::Open).insert(PartTag::Broken)
                        } else {
                            self.base_tags@
                        },
                        result: Ok(seq![EventDataView::ChangeHP { delta: (-dmg) as i32 }]),
                        ..same
                    }
                }
            },
            ActionDataView::Heal { hp } => {
                let h = min(hp as int, self.max_hp - self.cur_hp);
                if h <= 0 {
                    PartStep { result: Ok(seq![EventDataView::ChangeHP { delta: 0 }]), ..same }
                } else {
                    PartStep {
                        cur_hp: self.cur_hp + h,
                        base_tags: if self.cur_hp == 0 {
                            self.base_tags@.remove(PartTag::Broken)
                        } else {
                            self.base_tags@
                        },
                        result: Ok(seq![EventDataView::ChangeHP { delta: h as i32 }]),
                        ..same
                    }
                }
            },
            _ => PartStep { result: Err(Error::UnhandledAction), ..same },
        }
    }

    /// `after` is this part once an action with data `d` has been resolved on it.
    pub open spec fn resolved_state(&self, after: Part, d: ActionDataView) -> bool {
        let s = self.step(d);
        &&& after.base_tags@ == s.base_tags
        &&& after.tag_mods.mod_seq() == s.mods
        &&& after.cur_hp == s.cur_hp
        &&& after.tag_mods.next() == self.tag_mods.next() + (if d is AddTagMod { 1int } else { 0int })
        &&& after.name == self.name
        &&& after.cards == self.cards
        &&& after.entity == self.entity
        &&& after.max_hp == self.max_hp
        &&& after.thought == self.thought
        &&& after.memory == self.memory
        &&& after.mp == self.mp
        &&& s.result is Err ==> after == *self
    }

    /// `after` and `r` are this part and the result once action `a` has been resolved on
    /// it: the step's events, then one event listing the tags gained and one listing the
    /// tags lost, where there are any.
    pub open spec fn resolve_outcome(
        &self,
        after: Part,
        a: MetaView<ActionDataView>,
        r: Result<Seq<MetaView<EventDataView>>, Error>,
    ) -> bool {
        let s = self.step(a.data);
        &&& self.resolved_state(after, a.data)
        &&& match (r, s.result) {
            (Ok(es), Ok(ds)) => {
                let old_tags = self.spec_tags();
                let new_tags = after.spec_tags();
                let added = new_tags.difference(old_tags);
                let removed = old_tags.difference(new_tags);
                let n = ds.len() as int;
                let k = if added.len() > 0 { n + 1 } else { n };
                &&& es.len() == k + (if removed.len() > 0 { 1int } else { 0int })
                &&& forall|i: int| 0 <= i < n ==> #[trigger] es[i] == carried(a, ds[i])
                &&& added.len() > 0 ==> es[n].source == a.source && es[n].target == a.target
                    && es[n].tags == a.tags
                    && (es[n].data matches EventDataView::TagsSet { tags } && tags.no_duplicates() && tags.to_set() == added)
                &&& removed.len() > 0 ==> es[k].source == a.source && es[k].target == a.target
                    && es[k].tags == a.tags
                    && (es[k].data matches EventDataView::TagsCleared { tags } && tags.no_duplicates() && tags.to_set() == removed)
            },
            (Err(e), Err(e2)) => e == e2,
            _ => false,
        }
    }

    /// Whether the part can take an action with data `d` without running out of ids.
    pub open spec fn can_take(&self, d: ActionDataView) -> bool {
        d is AddTagMod ==> self.tag_mods.next() < u32::MAX
    }

    pub fn new(name: &str, tags: &[PartTag], max_hp: i32) -> (r: Part)
        ensures
            r.wf(),
            r.name@ == name@,
            r.cards@ == Map::<u32, Card>::empty(),
            r.cards.id_seq() == Seq::<Id<Card>>::empty(),
            r.cards.value_seq() == Seq::<Card>::empty(),
            r.cards.next() == 0,
            r.base_tags@ == tags@.to_set(),
            r.tag_mods.mod_seq() == Seq::<TagMod>::empty(),
            r.tag_mods.next() == 0,
            r.entity.status@ == Map::<u32, crate::status::Status>::empty(),
            r.entity.status.next() == 0,
            r.max_hp == max_hp,
            r.cur_hp == max_hp,
            r.thought == 0,
            r.memory == 0,
            r.mp == 0,
            r.spec_tags() == tags@.to_set(),
    {
        Part {
            name: String::from_str(name),
            cards: IdMap::new(),
            base_tags: VecSet::from_slice(tags),
            tag_mods: ModStack::new(),
            entity: Entity::new(),
            thought: 0,
            memory: 0,
            mp: 0,
            max_hp,
            cur_hp: max_hp,
        }
    }

    /// The tags of this part: its own tags with the modifications applied.
    /// A copy of this part.
    pub fn duplicate(&self) -> (r: Part)
        requires
            self.wf(),
        ensures
            r.wf(),
            r.like(*self),
    {
        let vals = self.cards.values();
        let mut copy: Vec<Card> = Vec::new();
        let mut i: usize = 0;
        while i < vals.len()
            invariant
                i <= vals@.len(),
                copy@ == vals@.take(i as int),
            decreases vals@.len() - i,
        {
            copy.push(vals[i].duplicate());
            assert(copy@ =~= vals@.take(i + 1));
            i = i + 1;
        }
        assert(copy@ =~= vals@);
        Part {
            name: self.name.clone(),
            cards: self.cards.with_values(copy),
            base_tags: self.base_tags.copy(),
            tag_mods: self.tag_mods.duplicate(),
            entity: self.entity.duplicate(),
            max_hp: self.max_hp,
            cur_hp: self.cur_hp,
            thought: self.thought,
            memory: self.memory,
            mp: self.mp,
        }
    }

    pub fn tags(&self) -> (r: VecSet<PartTag>)
        requires
            self.wf(),
        ensures
            r@ == self.spec_tags(),
    {
        self.tag_mods.eval(self.base_tags.copy())
    }

    /// Whether this part is broken, counting tag modifications.
    pub fn is_broken(&self) -> (r: bool)
        requires
            self.wf(),
        ensures
            r == self.spec_tags().contains(PartTag::Broken),
    {
        self.tags().contains(&PartTag::Broken)
    }

    /// Resolves `action` on this part and reports what happened, with one event for the
    /// tags gained and one for the tags lost, where there are any.
    pub fn resolve(&mut self, action: &Action) -> (r: Result<Vec<Event>, Error>)
        requires
            old(self).wf(),
            old(self).can_take(action.data@),
        ensures
            final(self).wf(),
            old(self).resolve_outcome(*final(self), action@, result_views(r)),
            old(self).resolved_state(*final(self), action.data@),
    {
        let old_tags = self.tags();
        let out = self.resolve_(action);
        match out {
            Err(e) => {
                proof {
                    assert(old(self).step(action.data@).result matches Err(e2) && e == e2);
                }
                Err(e)
            },
            Ok(out) => {
                let mut out = out;
                proof {
                    let st = old(self).step(action.data@);
                    assert(st.result is Ok);
                    assert(event_views(out@) == st.result->Ok_0.map_values(|d: EventDataView| carried(action@, d)));
                    assert(event_views(out@).len() == out@.len());
                }
                let new_tags = self.tags();
                let added = new_tags.difference(&old_tags);
                let removed = old_tags.difference(&new_tags);
                let ghost n = out@.len();
                proof {
                    use_type_invariant(&old_tags);
                    use_type_invariant(&new_tags);
                    old_tags.lemma_elems();
                    new_tags.lemma_elems();
                    added@.unique_seq_to_set();
                    removed@.unique_seq_to_set();
                }
                let has_added = added.len() > 0;
                let has_removed = removed.len() > 0;
                let ghost before = out@;
                assert(forall|i: int| 0 <= i < n ==> #[trigger] before[i]@ == event_views(before)[i]);
                if has_added {
                    out.push(action.carry(EventData::TagsSet { tags: added }));
                }
                let ghost mid = out@;
                assert(forall|i: int| 0 <= i < n ==> #[trigger] mid[i] == before[i]);
                if has_removed {
                    out.push(action.carry(EventData::TagsCleared { tags: removed }));
                }
                assert(forall|i: int| 0 <= i < mid.len() ==> #[trigger] out@[i] == mid[i]);
                proof {
                    let st = old(self).step(action.data@);
                    assert(st.result is Ok);
                    let ds = st.result->Ok_0;
                    assert(ds.len() == n);
                    assert(forall|i: int| 0 <= i < n ==> #[trigger] out@[i]@ == carried(action@, ds[i]));
                    let added_s = self.spec_tags().difference(old(self).spec_tags());
                    assert(has_added == (added_s.len() > 0));
                }
                Ok(out)
            },
        }
    }

    fn resolve_(&mut self, action: &Action) -> (r: Result<Vec<Event>, Error>)
        requires
            old(self).wf(),
            old(self).can_take(action.data@),
        ensures
            final(self).wf(),
            ({
                let s = old(self).step(action.data@);
                &&& final(self).base_tags@ == s.base_tags
                &&& final(self).tag_mods.mod_seq() == s.mods
                &&& final(self).cur_hp == s.cur_hp
                &&& match (r, s.result) {
                    (Ok(es), Ok(ds)) => event_views(es@) == ds.map_values(|d: EventDataView| carried(action@, d)),
                    (Err(e), Err(e2)) => e == e2,
                    _ => false,
                }
            }),
            old(self).resolved_state(*final(self), action.data@),
    {
        match &action.data {
            ActionData::SetTags { tags } => {
                let mut i: usize = 0;
                while i < tags.len()
                    invariant
                        i <= tags@.len(),
                        self.base_tags@ == old(self).base_tags@.union(tags@.take(i as int).to_set()),
                        self.tag_mods == old(self).tag_mods,
                        self.cur_hp == old(self).cur_hp,
                        self.name == old(self).name,
                        self.cards == old(self).cards,
                        self.entity == old(self).entity,
                        self.max_hp == old(self).max_hp,
                        self.thought == old(self).thought,
                        self.memory == old(self).memory,
                        self.mp == old(self).mp,
                    decreases tags@.len() - i,
                {
                    self.base_tags.insert(tags[i]);
                    proof {
                        let t0 = tags@.take(i as int);
                        assert(tags@.take(i + 1) =~= t0.push(tags@[i as int]));
                        assert forall|y: PartTag| self.base_tags@.contains(y) <==> old(self).base_tags@.union(tags@.take(i + 1).to_set()).contains(y) by {
                            vstd::seq_lib::lemma_seq_contains_after_push(t0, tags@[i as int], y);
                        }
                        assert(self.base_tags@ =~= old(self).base_tags@.union(tags@.take(i + 1).to_set()));
                    }
                    i = i + 1;
                }
                assert(tags@.take(tags@.len() as int) =~= tags@);
                let r: Vec<Event> = Vec::new();
                assert(event_views(r@) =~= Seq::empty());
                Ok(r)
            },
            ActionData::ClearTags { tags } => {
                let mut i: usize = 0;
                while i < tags.len()
                    invariant
                        i <= tags@.len(),
                        self.base_tags@ == old(self).base_tags@.difference(tags@.take(i as int).to_set()),
                        self.tag_mods == old(self).tag_mods,
                        self.cur_hp == old(self).cur_hp,
                        self.name == old(self).name,
                        self.cards == old(self).cards,
                        self.entity == old(self).entity,
                        self.max_hp == old(self).max_hp,
                        self.thought == old(self).thought,
                        self.memory == old(self).memory,
                        self.mp == old(self).mp,
                    decreases tags@.len() - i,
                {
                    self.base_tags.remove(&tags[i]);
                    proof {
                        let t0 = tags@.take(i as int);
                        assert(tags@.take(i + 1) =~= t0.push(tags@[i as int]));
                        assert forall|y: PartTag| self.base_tags@.contains(y) <==> old(self).base_tags@.difference(tags@.take(i + 1).to_set()).contains(y) by {
                            vstd::seq_lib::lemma_seq_contains_after_push(t0, tags@[i as int], y);
                        }
                        assert(self.base_tags@ =~= old(self).base_tags@.difference(tags@.take(i + 1).to_set()));
                    }
                    i = i + 1;
                }
                assert(tags@.take(tags@.len() as int) =~= tags@);
                let r: Vec<Event> = Vec::new();
                assert(event_views(r@) =~= Seq::empty());
                Ok(r)
            },
            ActionData::AddTagMod { m } => {
                let id = self.tag_mods.add(*m);
                proof {
                    crate::id_map::lemma_id_of_view(id);
                }
                let r = vec![action.carry(EventData::TagsModded { id })];
                assert(event_views(r@) =~= seq![EventDataView::TagsModded { id }].map_values(|d: EventDataView| carried(action@, d)));
                Ok(r)
            },
            ActionData::ClearTagMod { id } => {
                self.tag_mods.remove(*id);
                let r = vec![action.carry(EventData::TagsUnmodded { id: *id })];
                assert(event_views(r@) =~= seq![EventDataView::TagsUnmodded { id: *id }].map_values(|d: EventDataView| carried(action@, d)));
                Ok(r)
            },
            ActionData::Hit { damage } => {
                if self.is_broken() {
                    return Err(Error::BrokenPart);
                }
                let damage = if self.cur_hp <= *damage {
                    self.cur_hp
                } else {
                    *damage
                };
                if damage <= 0 {
                    let r = vec![action.carry(EventData::ChangeHP { delta: 0 })];
                    assert(event_views(r@) =~= seq![EventDataView::ChangeHP { delta: 0 }].map_values(|d: EventDataView| carried(action@, d)));
                    return Ok(r);
                }
                self.cur_hp = self.cur_hp - damage;
                if self.cur_hp <= 0 {
                    self.base_tags.remove(&PartTag::Open);
                    self.base_tags.insert(PartTag::Broken);
                }
                let delta = -damage;
                let r = vec![action.carry(EventData::ChangeHP { delta })];
                assert(event_views(r@) =~= seq![EventDataView::ChangeHP { delta }].map_values(|d: EventDataView| carried(action@, d)));
                Ok(r)
            },
            ActionData::Heal { hp } => {
                let room = self.max_hp - self.cur_hp;
                let hp = if *hp <= room {
                    *hp
                } else {
                    room
                };
                if hp <= 0 {
                    let r = vec![action.carry(EventData::ChangeHP { delta: 0 })];
                    assert(event_views(r@) =~= seq![EventDataView::ChangeHP { delta: 0 }].map_values(|d: EventDataView| carried(action@, d)));
                    return Ok(r);
                }
                if self.cur_hp == 0 && hp > 0 {
                    self.base_tags.remove(&PartTag::Broken);
                }
                self.cur_hp = self.cur_hp + hp;
                let r = vec![action.carry(EventData::ChangeHP { delta: hp })];
                assert(event_views(r@) =~= seq![EventDataView::ChangeHP { delta: hp }].map_values(|d: EventDataView| carried(action@, d)));
                Ok(r)
            },
            _ => Err(Error::UnhandledAction),
        }
    }
}

/// What a part reports on an action is never heard by every entity.
pub proof fn lemma_outcome_local(
    p: Part,
    q: Part,
    a: MetaView<ActionDataView>,
    es: Seq<MetaView<EventDataView>>,
)
    requires
        p.resolve_outcome(q, a, Ok(es)),
    ensures
        local_events(es),
{
    let s = p.step(a.data);
    let ds = s.result->Ok_0;
    assert(local_events(es)) by {
        assert forall|i: int| 0 <= i < es.len() implies !spec_is_global(#[trigger] es[i].data) by {
            if i < ds.len() {
                assert(es[i] == carried(a, ds[i]));
            }
        }
    }
}

/// Resolving any action, whatever its amount of damage or healing, keeps a part's hit
/// points between 0 and its maximum, which stays as it was; an action the part refuses
/// leaves it as it was.
pub proof fn law_hp_in_bounds(
    p: Part,
    after: Part,
    a: MetaView<ActionDataView>,
    r: Result<Seq<MetaView<EventDataView>>, Error>,
)
    requires
        p.wf(),
        0 <= p.cur_hp,
        p.resolve_outcome(after, a, r),
    ensures
        after.max_hp == p.max_hp,
        0 <= after.cur_hp <= after.max_hp,
        r is Err ==> after == p,
{
}

} // verus!
