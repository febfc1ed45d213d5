//! Creatures: parts, action and move points, and a deck of cards.
use vstd::prelude::*;
use vstd::multiset::Multiset;
use vstd::string::StringExecFns;
use crate::action::{local_events, spec_is_global, 
    Action, ActionData, ActionDataView, Event, EventData, EventDataView, MetaView, Path,
    event_views, result_views, spec_path_creature, spec_path_part,
};
use crate::card::Card;
use crate::entity::Entity;
use crate::error::Error;
use crate::hex::abs;
use crate::id_map::{Id, IdMap, same_id};
use crate::npc::{NPC, copy_npc};
use crate::part::{Part, PartTag, carried, min, lemma_outcome_local};
use crate::random::{random_below, shuffle};

verus! {

/// A card in a creature's deck: the part that holds it and its id there.
pub type CardId = (Id<Part>, Id<Card>);

/// A stat that a creature sums over its parts.
#[derive(Debug, Clone, Copy, PartialEq, Eq, Structural)]
pub enum Stat {
    Thought,
    Memory,
    Mp,
}

pub open spec fn stat_of(p: Part, s: Stat) -> int {
    match s {
        Stat::Thought => p.thought as int,
        Stat::Memory => p.memory as int,
        Stat::Mp => p.mp as int,
    }
}

pub open spec fn part_unbroken(p: Part) -> bool {
    !p.spec_tags().contains(PartTag::Broken)
}

/// The sum of a stat over the parts that are not broken.
pub open spec fn unbroken_sum(ps: Seq<Part>, s: Stat) -> int
    decreases ps.len(),
{
    if ps.len() == 0 {
        0
    } else {
        unbroken_sum(ps.drop_last(), s) + (if part_unbroken(ps.last()) {
            stat_of(ps.last(), s)
        } else {
            0
        })
    }
}

/// The sum of the sizes of a stat over all parts.
pub open spec fn abs_sum(ps: Seq<Part>, s: Stat) -> int
    decreases ps.len(),
{
    if ps.len() == 0 {
        0
    } else {
        abs_sum(ps.drop_last(), s) + abs(stat_of(ps.last(), s))
    }
}

proof fn lemma_sum_bound(ps: Seq<Part>, s: Stat)
    ensures
        abs(unbroken_sum(ps, s)) <= abs_sum(ps, s),
        abs_sum(ps, s) >= 0,
    decreases ps.len(),
{
    if ps.len() > 0 {
        lemma_sum_bound(ps.drop_last(), s);
    }
}

proof fn lemma_abs_sum_prefix(ps: Seq<Part>, s: Stat, i: int)
    requires
        0 <= i <= ps.len(),
    ensures
        abs_sum(ps.take(i), s) <= abs_sum(ps, s),
    decreases ps.len() - i,
{
    if i < ps.len() {
        lemma_abs_sum_prefix(ps, s, i + 1);
        assert(ps.take(i + 1).drop_last() =~= ps.take(i));
    } else {
        assert(ps.take(i) =~= ps);
    }
}

/// The ids of the parts whose tags hold `tag`, in order.
pub open spec fn ids_with_tag(ids: Seq<Id<Part>>, ps: Seq<Part>, tag: PartTag, n: int) -> Seq<
    Id<Part>,
>
    decreases n,
{
    if n <= 0 {
        Seq::empty()
    } else if ps[n - 1].spec_tags().contains(tag) {
        ids_with_tag(ids, ps, tag, n - 1).push(ids[n - 1])
    } else {
        ids_with_tag(ids, ps, tag, n - 1)
    }
}

/// The ids of the parts that are not broken, in order.
pub open spec fn unbroken_ids(ids: Seq<Id<Part>>, ps: Seq<Part>, n: int) -> Seq<Id<Part>>
    decreases n,
{
    if n <= 0 {
        Seq::empty()
    } else if part_unbroken(ps[n - 1]) {
        unbroken_ids(ids, ps, n - 1).push(ids[n - 1])
    } else {
        unbroken_ids(ids, ps, n - 1)
    }
}

/// Every card of the parts `ids[..n]`, part by part, each part's cards in order.
pub open spec fn all_card_ids(ids: Seq<Id<Part>>, ps: Seq<Part>, n: int) -> Seq<CardId>
    decreases n,
{
    if n <= 0 {
        Seq::empty()
    } else {
        all_card_ids(ids, ps, n - 1) + ps[n - 1].cards.id_seq().map_values(
            |c: Id<Card>| (ids[n - 1], c),
        )
    }
}

#[derive(Debug, Clone)]
pub struct Creature {
    pub name: String,
    pub parts: IdMap<Part>,
    pub cur_ap: i32,
    pub cur_mp: i32,
    pub dead: bool,
    pub npc: Option<NPC>,
    /// The draw pile; its end is the top.
    pub draw: Vec<CardId>,
    pub hand: Vec<CardId>,
    pub discard: Vec<CardId>,
    pub entity: Entity,
}

impl Creature {
    pub open spec fn part_seq(&self) -> Seq<Part> {
        self.parts.value_seq()
    }

    /// The parts are sound and their stats small enough that any sum of them fits an `i32`.
    pub open spec fn wf(&self) -> bool {
        &&& self.parts.wf()
        &&& forall|i: int| 0 <= i < self.part_seq().len() ==> (#[trigger] self.part_seq()[i]).wf()
        &&& abs_sum(self.part_seq(), Stat::Thought) <= i32::MAX
        &&& abs_sum(self.part_seq(), Stat::Memory) <= i32::MAX
        &&& abs_sum(self.part_seq(), Stat::Mp) <= i32::MAX
        &&& self.entity.wf()
    }

    pub open spec fn spec_max_ap(&self) -> int {
        if self.dead {
            0
        } else {
            unbroken_sum(self.part_seq(), Stat::Thought)
        }
    }

    pub open spec fn spec_hand_size(&self) -> int {
        unbroken_sum(self.part_seq(), Stat::Memory)
    }

    pub open spec fn spec_max_mp(&self) -> int {
        if self.dead {
            0
        } else if unbroken_sum(self.part_seq(), Stat::Mp) >= 1 {
            unbroken_sum(self.part_seq(), Stat::Mp)
        } else {
            1
        }
    }

    fn stat_sum(&self, s: Stat) -> (r: i32)
        requires
            self.wf(),
        ensures
            r == unbroken_sum(self.part_seq(), s),
    {
        let parts = self.parts.values();
        let ghost ps = self.part_seq();
        proof {
            lemma_sum_bound(ps, s);
            assert(ps.take(0) =~= Seq::<Part>::empty());
        }
        let mut acc: i64 = 0;
        let mut i: usize = 0;
        while i < parts.len()
            invariant
                self.wf(),
                parts@ == ps,
                ps == self.part_seq(),
                i <= ps.len(),
                acc == unbroken_sum(ps.take(i as int), s),
                abs_sum(ps, s) <= i32::MAX,
            decreases ps.len() - i,
        {
            proof {
                lemma_sum_bound(ps.take(i as int), s);
                lemma_abs_sum_prefix(ps, s, i as int);
                assert(ps.take(i + 1).drop_last() =~= ps.take(i as int));
                lemma_sum_bound(ps.take(i + 1), s);
                lemma_abs_sum_prefix(ps, s, i + 1);
            }
            let p = &parts[i];
            assert(p.wf());
            if !p.is_broken() {
                let v = match s {
                    Stat::Thought => p.thought,
                    Stat::Memory => p.memory,
                    Stat::Mp => p.mp,
                };
                acc = acc + v as i64;
            }
            i = i + 1;
        }
        proof {
            assert(ps.take(ps.len() as int) =~= ps);
            lemma_sum_bound(ps, s);
        }
        acc as i32
    }

    /// The action points the creature refills to: the thought of its unbroken parts.
    pub fn max_ap(&self) -> (r: i32)
        requires
            self.wf(),
        ensures
            r == self.spec_max_ap(),
    {
        if self.dead {
            return 0;
        }
        self.stat_sum(Stat::Thought)
    }

    /// The number of cards the creature draws: the memory of its unbroken parts.
    pub fn hand_size(&self) -> (r: i32)
        requires
            self.wf(),
        ensures
            r == self.spec_hand_size(),
    {
        self.stat_sum(Stat::Memory)
    }

    /// The move points the creature refills to: the move points of its unbroken parts, at
    /// least 1.
    pub fn max_mp(&self) -> (r: i32)
        requires
            self.wf(),
        ensures
            r == self.spec_max_mp(),
    {
        if self.dead {
            return 0;
        }
        let val = self.stat_sum(Stat::Mp);
        if val >= 1 {
            val
        } else {
            1
        }
    }

    /// The ids of the parts that are open to attack, in order.
    pub fn open_parts(&self) -> (r: Vec<Id<Part>>)
        requires
            self.wf(),
        ensures
            r@ == ids_with_tag(
                self.parts.id_seq(),
                self.part_seq(),
                PartTag::Open,
                self.part_seq().len() as int,
            ),
    {
        let (ids, parts) = self.parts.map();
        let mut out: Vec<Id<Part>> = Vec::new();
        let mut i: usize = 0;
        proof {
            self.parts.lemma_view();
        }
        while i < parts.len()
            invariant
                self.wf(),
                ids@ == self.parts.id_seq(),
                parts@ == self.part_seq(),
                ids@.len() == parts@.len(),
                i <= parts@.len(),
                out@ == ids_with_tag(ids@, parts@, PartTag::Open, i as int),
            decreases parts@.len() - i,
        {
            assert(parts@[i as int].wf());
            if parts[i].tags().contains(&PartTag::Open) {
                out.push(ids[i]);
            }
            i = i + 1;
        }
        out
    }

    /// The ids of the parts that are not broken, in order.
    pub fn unbroken_parts(&self) -> (r: Vec<Id<Part>>)
        requires
            self.wf(),
        ensures
            r@ == unbroken_ids(self.parts.id_seq(), self.part_seq(), self.part_seq().len() as int),
    {
        let (ids, parts) = self.parts.map();
        let mut out: Vec<Id<Part>> = Vec::new();
        let mut i: usize = 0;
        proof {
            self.parts.lemma_view();
        }
        while i < parts.len()
            invariant
                self.wf(),
                ids@ == self.parts.id_seq(),
                parts@ == self.part_seq(),
                ids@.len() == parts@.len(),
                i <= parts@.len(),
                out@ == unbroken_ids(ids@, parts@, i as int),
            decreases parts@.len() - i,
        {
            assert(parts@[i as int].wf());
            if !parts[i].is_broken() {
                out.push(ids[i]);
            }
            i = i + 1;
        }
        out
    }

    /// Every card of every part, part by part.
    pub fn all_cards(&self) -> (r: Vec<CardId>)
        requires
            self.wf(),
        ensures
            r@ == all_card_ids(self.parts.id_seq(), self.part_seq(), self.part_seq().len() as int),
    {
        let (ids, parts) = self.parts.map();
        let mut out: Vec<CardId> = Vec::new();
        let mut i: usize = 0;
        proof {
            self.parts.lemma_view();
        }
        while i < parts.len()
            invariant
                self.wf(),
                ids@ == self.parts.id_seq(),
                parts@ == self.part_seq(),
                ids@.len() == parts@.len(),
                i <= parts@.len(),
                out@ == all_card_ids(ids@, parts@, i as int),
            decreases parts@.len() - i,
        {
            let pid = ids[i];
            assert(parts@[i as int].wf());
            let cards = parts[i].cards.keys();
            let ghost start = out@;
            let mut j: usize = 0;
            while j < cards.len()
                invariant
                    i < parts@.len(),
                    ids@.len() == parts@.len(),
                    pid == ids@[i as int],
                    cards@ == parts@[i as int].cards.id_seq(),
                    j <= cards@.len(),
                    out@ == start + cards@.take(j as int).map_values(|c: Id<Card>| (pid, c)),
                decreases cards@.len() - j,
            {
                out.push((pid, cards[j]));
                assert(cards@.take(j + 1).map_values(|c: Id<Card>| (pid, c)) =~= cards@.take(
                    j as int,
                ).map_values(|c: Id<Card>| (pid, c)).push((pid, cards@[j as int])));
                j = j + 1;
            }
            assert(cards@.take(cards@.len() as int) =~= cards@);
            i = i + 1;
        }
        out
    }

    /// Puts every card of every part in the draw pile, shuffled, and empties hand and
    /// discard pile.
    pub fn reset_cards(&mut self)
        requires
            old(self).wf(),
        ensures
            final(self).wf(),
            final(self).draw@.to_multiset() == all_card_ids(
                old(self).parts.id_seq(),
                old(self).part_seq(),
                old(self).part_seq().len() as int,
            ).to_multiset(),
            final(self).hand@ == Seq::<CardId>::empty(),
            final(self).discard@ == Seq::<CardId>::empty(),
            final(self).parts == old(self).parts,
            final(self).name == old(self).name,
            final(self).cur_ap == old(self).cur_ap,
            final(self).cur_mp == old(self).cur_mp,
            final(self).dead == old(self).dead,
            final(self).npc == old(self).npc,
            final(self).entity == old(self).entity,
    {
        let mut draw = self.all_cards();
        shuffle(&mut draw);
        self.draw = draw;
        self.hand = Vec::new();
        self.discard = Vec::new();
    }

    /// A creature with these parts, full action and move points and a shuffled deck.
    pub fn new_ids(name: &str, parts: IdMap<Part>, npc: Option<NPC>) -> (r: Creature)
        requires
            parts.wf(),
            forall|i: int| 0 <= i < parts.value_seq().len() ==> (#[trigger] parts.value_seq()[i]).wf(),
            abs_sum(parts.value_seq(), Stat::Thought) <= i32::MAX,
            abs_sum(parts.value_seq(), Stat::Memory) <= i32::MAX,
            abs_sum(parts.value_seq(), Stat::Mp) <= i32::MAX,
        ensures
            r.wf(),
            r.name@ == name@,
            r.parts == parts,
            r.npc == npc,
            !r.dead,
            r.cur_ap == r.spec_max_ap(),
            r.cur_mp == r.spec_max_mp(),
            r.hand@ == Seq::<CardId>::empty(),
            r.discard@ == Seq::<CardId>::empty(),
            r.draw@.to_multiset() == all_card_ids(
                parts.id_seq(),
                parts.value_seq(),
                parts.value_seq().len() as int,
            ).to_multiset(),
            r.entity.status@ == Map::<u32, crate::status::Status>::empty(),
            r.entity.status.next() == 0,
    {
        let mut out = Creature {
            name: String::from_str(name),
            parts,
            cur_ap: 0,
            cur_mp: 0,
            dead: false,
            npc,
            draw: Vec::new(),
            hand: Vec::new(),
            discard: Vec::new(),
            entity: Entity::new(),
        };
        out.cur_ap = out.max_ap();
        out.cur_mp = out.max_mp();
        out.reset_cards();
        out
    }

    /// A creature with these parts, each at full hit points and numbered in order.
    pub fn new(name: &str, parts: Vec<Part>, npc: Option<NPC>) -> (r: Creature)
        requires
            parts@.len() < u32::MAX,
            forall|i: int| 0 <= i < parts@.len() ==> (#[trigger] parts@[i]).wf(),
            abs_sum(parts@, Stat::Thought) <= i32::MAX,
            abs_sum(parts@, Stat::Memory) <= i32::MAX,
            abs_sum(parts@, Stat::Mp) <= i32::MAX,
        ensures
            r.wf(),
            r.name@ == name@,
            r.parts.key_seq() == Seq::new(parts@.len(), |i: int| i as u32),
            r.part_seq().len() == parts@.len(),
            forall|i: int| 0 <= i < parts@.len() ==> {
                let p = #[trigger] r.part_seq()[i];
                let q = parts@[i];
                p == Part { cur_hp: q.max_hp, ..q }
            },
            r.npc == npc,
            !r.dead,
            r.cur_ap == r.spec_max_ap(),
            r.cur_mp == r.spec_max_mp(),
            r.hand@ == Seq::<CardId>::empty(),
            r.discard@ == Seq::<CardId>::empty(),
            r.draw@.to_multiset() == all_card_ids(r.parts.id_seq(), r.part_seq(), r.part_seq().len() as int).to_multiset(),
            r.entity.status@ == Map::<u32, crate::status::Status>::empty(),
    {
        let mut pids: IdMap<Part> = IdMap::new();
        let mut parts = parts;
        let ghost all = parts@;
        let n = parts.len();
        let mut k: usize = 0;
        while k < n
            invariant
                pids.wf(),
                n == all.len(),
                n < u32::MAX,
                k <= n,
                pids.next() == k,
                pids.key_seq() == Seq::new(k as nat, |i: int| i as u32),
                pids.value_seq().len() == k,
                forall|i: int| 0 <= i < k ==> {
                    let p = #[trigger] pids.value_seq()[i];
                    let q = all[i];
                    p == Part { cur_hp: q.max_hp, ..q }
                },
                parts@ == all.skip(k as int),
                forall|i: int| 0 <= i < all.len() ==> (#[trigger] all[i]).wf(),
            decreases n - k,
        {
            let mut tmp = parts.remove(0);
            assert(tmp == all[k as int]);
            tmp.cur_hp = tmp.max_hp;
            pids.add(tmp);
            proof {
                assert(pids.key_seq() =~= Seq::new((k + 1) as nat, |i: int| i as u32));
                assert(parts@ =~= all.skip(k + 1));
            }
            k = k + 1;
        }
        proof {
            let ps = pids.value_seq();
            assert forall|i: int| 0 <= i < ps.len() implies (#[trigger] ps[i]).wf() by {
                assert(all[i].wf());
            }
            assert forall|s: Stat| abs_sum(ps, s) == abs_sum(all, s) by {
                lemma_abs_sum_same_stats(ps, all, s);
            }
        }
        Creature::new_ids(name, pids, npc)
    }
}

/// The path of card `c` of creature `cid`.
pub open spec fn card_path(cid: Id<Creature>, c: CardId) -> Path {
    Path::Card { cid, pid: c.0, card: c.1 }
}

/// Event `d` about card `c`, otherwise carried by action `a`.
pub open spec fn card_event(
    a: MetaView<ActionDataView>,
    cid: Id<Creature>,
    c: CardId,
    d: EventDataView,
) -> MetaView<EventDataView> {
    MetaView { source: a.source, target: card_path(cid, c), tags: a.tags, data: d }
}

/// Event `d` about creature `cid`, otherwise carried by action `a`.
pub open spec fn creature_event(
    a: MetaView<ActionDataView>,
    cid: Id<Creature>,
    d: EventDataView,
) -> MetaView<EventDataView> {
    MetaView { source: a.source, target: Path::Creature { cid }, tags: a.tags, data: d }
}

/// The first position of `c` in `s` at or after `i`, or -1.
pub open spec fn find_from(s: Seq<CardId>, c: CardId, i: int) -> int
    decreases s.len() - i,
{
    if i < 0 || i >= s.len() {
        -1
    } else if s[i] == c {
        i
    } else {
        find_from(s, c, i + 1)
    }
}

proof fn lemma_find_from(s: Seq<CardId>, c: CardId, i: int)
    requires
        0 <= i <= s.len(),
    ensures
        find_from(s, c, i) == -1 ==> forall|j: int| i <= j < s.len() ==> s[j] != c,
        find_from(s, c, i) != -1 ==> i <= find_from(s, c, i) < s.len() && s[find_from(s, c, i)] == c,
    decreases s.len() - i,
{
    if i < s.len() {
        lemma_find_from(s, c, i + 1);
    }
}

/// Event `d` about each card of `s`, otherwise carried by action `a`.
pub open spec fn card_events(
    a: MetaView<ActionDataView>,
    cid: Id<Creature>,
    s: Seq<CardId>,
    d: EventDataView,
) -> Seq<MetaView<EventDataView>> {
    s.map_values(|c: CardId| card_event(a, cid, c, d))
}

/// `b` is part `a` with `Open` added to its own tags.
pub open spec fn part_opened(a: Part, b: Part) -> bool {
    &&& b == Part { base_tags: b.base_tags, ..a }
    &&& b.base_tags@ == a.base_tags@.insert(PartTag::Open)
}

impl Creature {
    /// Everything but the parts and the points is as in `other`.
    pub open spec fn same_but_parts_and_points(&self, other: Creature) -> bool {
        &&& self.name == other.name
        &&& self.npc == other.npc
        &&& self.entity == other.entity
        &&& self.draw@ == other.draw@
        &&& self.hand@ == other.hand@
        &&& self.discard@ == other.discard@
    }

    /// The parts are those of `other`.
    pub open spec fn same_parts(&self, other: Creature) -> bool {
        &&& self.parts@ == other.parts@
        &&& self.parts.key_seq() == other.parts.key_seq()
        &&& self.parts.next() == other.parts.next()
    }

    /// Only the deck may differ from `other`.
    pub open spec fn same_but_deck(&self, other: Creature) -> bool {
        &&& self.name == other.name
        &&& self.npc == other.npc
        &&& self.entity == other.entity
        &&& self.same_parts(other)
        &&& self.cur_ap == other.cur_ap
        &&& self.cur_mp == other.cur_mp
        &&& self.dead == other.dead
    }

    /// Nothing differs from `other`, by views.
    pub open spec fn same_as(&self, other: Creature) -> bool {
        &&& self.same_but_deck(other)
        &&& self.draw@ == other.draw@
        &&& self.hand@ == other.hand@
        &&& self.discard@ == other.discard@
    }

    /// Whether the creature can resolve action `a` without an overflow: point changes fit,
    /// and a part that breaks cannot leave the action points too far above their maximum.
    pub open spec fn can_take(&self, a: MetaView<ActionDataView>) -> bool {
        match a.data {
            ActionDataView::GainAP { ap } => i32::MIN <= self.cur_ap + ap <= i32::MAX,
            ActionDataView::SpendAP { ap } => ap != i32::MIN && self.cur_ap - ap <= i32::MAX,
            ActionDataView::GainMP { mp } => i32::MIN <= self.cur_mp + mp <= i32::MAX,
            ActionDataView::SpendMP { mp } => mp != i32::MIN && self.cur_mp - mp <= i32::MAX,
            ActionDataView::NewHand => spec_path_creature(a.target) is Some,
            _ => match spec_path_part(a.target) {
                Some((cid, pid)) => {
                    &&& self.cur_ap + abs_sum(self.part_seq(), Stat::Thought) <= i32::MAX + 1
                    &&& (self.parts@.contains_key(pid@) ==> self.parts@[pid@].can_take(a.data))
                },
                None => true,
            },
        }
    }

    /// What drawing a new hand does, `es` being the events it reports: the hand goes to
    /// the discard pile card by card, then cards are drawn from the top of the draw pile,
    /// which is refilled from the shuffled discard pile, once, when it runs out.
    pub open spec fn new_hand_step(
        &self,
        after: Creature,
        cid: Id<Creature>,
        a: MetaView<ActionDataView>,
        es: Seq<MetaView<EventDataView>>,
    ) -> bool {
        let h0 = self.hand@;
        let d0 = self.draw@;
        let x1 = self.discard@ + h0;
        let hs = if self.spec_hand_size() > 0 { self.spec_hand_size() } else { 0 };
        let total = (d0.len() + x1.len()) as int;
        let n = min(hs, total);
        let d1 = min(hs, d0.len() as int);
        let recycled = d0.len() < hs && x1.len() > 0;
        &&& after.same_but_deck(*self)
        &&& after.hand@.len() == n
        &&& forall|j: int| 0 <= j < d1 ==> #[trigger] after.hand@[j] == d0[d0.len() - 1 - j]
        &&& !recycled ==> after.draw@ == d0.take(d0.len() - d1) && after.discard@ == x1
        &&& recycled ==> after.discard@ == Seq::<CardId>::empty() && after.draw@.len() == x1.len()
            - (n - d1) && (after.draw@ + after.hand@.skip(d1)).to_multiset() == x1.to_multiset()
        &&& es == card_events(a, cid, h0, EventDataView::Discarded)
            + card_events(a, cid, after.hand@.take(d1), EventDataView::Drew) + (if recycled {
            seq![carried(a, EventDataView::DeckRecycled)]
        } else {
            Seq::empty()
        }) + card_events(a, cid, after.hand@.skip(d1), EventDataView::Drew)
    }

    /// Draws a new hand, reporting events about creature `cid`.
    fn new_hand(&mut self, action: &Action, cid: Id<Creature>) -> (out: Vec<Event>)
        requires
            old(self).wf(),
        ensures
            final(self).wf(),
            old(self).new_hand_step(*final(self), cid, action@, event_views(out@)),
    {
        let ghost a = action@;
        let ghost h0 = self.hand@;
        let ghost d0 = self.draw@;
        let ghost x1 = self.discard@ + h0;
        let mut out: Vec<Event> = Vec::new();
        let mut hand: Vec<CardId> = Vec::new();
        std::mem::swap(&mut hand, &mut self.hand);
        let ghost x0 = self.discard@;
        let mut k: usize = 0;
        while k < hand.len()
            invariant
                self.wf(),
                hand@ == h0,
                k <= h0.len(),
                self.discard@ == x0 + h0.take(k as int),
                a == action@,
                h0 == old(self).hand@,
                d0 == old(self).draw@,
                x0 == old(self).discard@,
                x1 == x0 + h0,
                event_views(out@) == card_events(a, cid, h0.take(k as int), EventDataView::Discarded),
                self.hand@ == Seq::<CardId>::empty(),
                self.draw@ == d0,
                self.name == old(self).name,
                self.npc == old(self).npc,
                self.entity == old(self).entity,
                self.parts == old(self).parts,
                self.cur_ap == old(self).cur_ap,
                self.cur_mp == old(self).cur_mp,
                self.dead == old(self).dead,
            decreases h0.len() - k,
        {
            let card = hand[k];
            let mut ev = action.carry(EventData::Discarded);
            ev.target = Path::Card { cid, pid: card.0, card: card.1 };
            assert(ev@ == card_event(a, cid, card, EventDataView::Discarded));
            let ghost ev0 = out@;
            out.push(ev);
            assert(out@ == ev0.push(ev));
            self.discard.push(card);
            proof {
                assert(h0.take(k + 1) =~= h0.take(k as int).push(card));
                assert(event_views(out@) =~= event_views(ev0).push(ev@));
                assert(card_events(a, cid, h0.take(k + 1), EventDataView::Discarded) =~= card_events(a, cid, h0.take(k as int), EventDataView::Discarded).push(card_event(a, cid, card, EventDataView::Discarded)));
                assert(event_views(out@) =~= card_events(a, cid, h0.take(k + 1), EventDataView::Discarded));
                assert(self.discard@ =~= x0 + h0.take(k + 1));
            }
            k = k + 1;
        }
        proof {
            assert(h0.take(h0.len() as int) =~= h0);
        }
        let ghost disc = event_views(out@);
        let hs = self.hand_size();
        let ghost hsn = if hs > 0 { hs as int } else { 0int };
        let ghost d1 = min(hsn, d0.len() as int);
        let ghost rec_ev = carried(a, EventDataView::DeckRecycled);
        let ghost mut recycled = false;
        let mut j: i32 = 0;
        while j < hs
            invariant
                self.wf(),
                hs == old(self).spec_hand_size(),
                hsn == (if hs > 0 { hs as int } else { 0int }),
                d1 == min(hsn, d0.len() as int),
                0 <= j <= hsn,
                self.hand@.len() == j,
                a == action@,
                h0 == old(self).hand@,
                d0 == old(self).draw@,
                x1 == old(self).discard@ + h0,
                disc == card_events(a, cid, h0, EventDataView::Discarded),
                rec_ev == carried(a, EventDataView::DeckRecycled),
                self.name == old(self).name,
                self.npc == old(self).npc,
                self.entity == old(self).entity,
                self.parts == old(self).parts,
                self.cur_ap == old(self).cur_ap,
                self.cur_mp == old(self).cur_mp,
                self.dead == old(self).dead,
                forall|i: int| 0 <= i < j && i < d0.len() ==> #[trigger] self.hand@[i] == d0[d0.len() - 1 - i],
                !recycled ==> {
                    &&& j <= d0.len()
                    &&& self.draw@ == d0.take(d0.len() - j)
                    &&& self.discard@ == x1
                    &&& event_views(out@) == disc + card_events(a, cid, self.hand@, EventDataView::Drew)
                },
                recycled ==> {
                    &&& d0.len() == d1
                    &&& d1 <= j
                    &&& d0.len() < hsn
                    &&& x1.len() > 0
                    &&& self.discard@ == Seq::<CardId>::empty()
                    &&& self.draw@.len() == x1.len() - (j - d1)
                    &&& (self.draw@ + self.hand@.skip(d1)).to_multiset() == x1.to_multiset()
                    &&& event_views(out@) == disc + card_events(a, cid, self.hand@.take(d1), EventDataView::Drew) + seq![rec_ev]
                        + card_events(a, cid, self.hand@.skip(d1), EventDataView::Drew)
                },
            decreases hs - j,
        {
            if self.draw.len() == 0 {
                if self.discard.len() == 0 {
                    proof {
                        if !recycled {
                            assert(self.hand@.take(d1) =~= self.hand@);
                            assert(self.hand@.skip(d1) =~= Seq::<CardId>::empty());
                            assert(event_views(out@) =~= disc + card_events(a, cid, self.hand@.take(d1), EventDataView::Drew)
                                + Seq::empty() + card_events(a, cid, self.hand@.skip(d1), EventDataView::Drew));
                            assert(j == d0.len());
                            assert(x1.len() == 0);
                            assert(self.draw@ =~= d0.take(d0.len() - d1));
                        } else {
                            assert(x1.len() == j - d1);
                        }
                        assert(self.hand@.len() == min(hsn, (d0.len() + x1.len()) as int));
                    }
                    return out;
                }
                let ghost ev0 = event_views(out@);
                let ghost out1 = out@;
                let rev = action.carry(EventData::DeckRecycled);
                assert(rev@ == rec_ev);
                out.push(rev);
                assert(out@ == out1.push(rev));
                let mut pile: Vec<CardId> = Vec::new();
                std::mem::swap(&mut pile, &mut self.discard);
                self.draw.append(&mut pile);
                shuffle(&mut self.draw);
                proof {
                    recycled = true;
                    assert(self.hand@.take(d1) =~= self.hand@);
                    assert(self.hand@.skip(d1) =~= Seq::<CardId>::empty());
                    assert(self.draw@ + self.hand@.skip(d1) =~= self.draw@);
                    assert(event_views(out@) =~= ev0.push(rec_ev));
                    assert(event_views(out@) =~= disc + card_events(a, cid, self.hand@.take(d1), EventDataView::Drew) + seq![rec_ev]
                        + card_events(a, cid, self.hand@.skip(d1), EventDataView::Drew));
                }
            }
            let ghost draw0 = self.draw@;
            let ghost hand0 = self.hand@;
            let ghost ev0 = event_views(out@);
            let card = self.draw.pop().unwrap();
            let mut ev = action.carry(EventData::Drew);
            ev.target = Path::Card { cid, pid: card.0, card: card.1 };
            assert(ev.source == a.source);
            assert(ev.tags@ == a.tags);
            assert(ev.data@ == EventDataView::Drew);
            assert(ev.target == card_path(cid, card));
            assert(ev@ == card_event(a, cid, card, EventDataView::Drew));
            let ghost out0 = out@;
            out.push(ev);
            assert(out@ == out0.push(ev));
            self.hand.push(card);
            proof {
                assert(draw0 =~= self.draw@.push(card));
                assert(event_views(out@) =~= event_views(out0).push(card_event(a, cid, card, EventDataView::Drew)));
                if !recycled {
                    assert(card == d0[d0.len() - 1 - j]);
                    assert(self.draw@ =~= d0.take(d0.len() - (j + 1)));
                    assert(card_events(a, cid, self.hand@, EventDataView::Drew) =~= card_events(a, cid, hand0, EventDataView::Drew).push(card_event(a, cid, card, EventDataView::Drew)));
                } else {
                    assert(self.hand@.take(d1) =~= hand0.take(d1));
                    assert(self.hand@.skip(d1) =~= hand0.skip(d1).push(card));
                    assert(card_events(a, cid, self.hand@.skip(d1), EventDataView::Drew) =~= card_events(a, cid, hand0.skip(d1), EventDataView::Drew).push(card_event(a, cid, card, EventDataView::Drew)));
                    vstd::seq_lib::lemma_multiset_commutative(draw0, hand0.skip(d1));
                    vstd::seq_lib::lemma_multiset_commutative(self.draw@, self.hand@.skip(d1));
                    vstd::seq_lib::to_multiset_build(self.draw@, card);
                    vstd::seq_lib::to_multiset_build(hand0.skip(d1), card);
                    assert((self.draw@ + self.hand@.skip(d1)).to_multiset() =~= (draw0 + hand0.skip(d1)).to_multiset());
                }
            }
            j = j + 1;
        }
        proof {
            if !recycled {
                assert(self.hand@.take(d1) =~= self.hand@);
                assert(self.hand@.skip(d1) =~= Seq::<CardId>::empty());
                assert(event_views(out@) =~= disc + card_events(a, cid, self.hand@.take(d1), EventDataView::Drew) + Seq::empty()
                    + card_events(a, cid, self.hand@.skip(d1), EventDataView::Drew));
            }
        }
        out
    }
}

impl Creature {
    /// What a resolution does when it only changes the points, `r` being its result.
    pub open spec fn points_step(
        &self,
        after: Creature,
        ap: int,
        mp: int,
        r: Result<Seq<MetaView<EventDataView>>, Error>,
        expected: Seq<MetaView<EventDataView>>,
    ) -> bool {
        &&& after.same_but_parts_and_points(*self)
        &&& after.same_parts(*self)
        &&& after.dead == self.dead
        &&& after.cur_ap == ap
        &&& after.cur_mp == mp
        &&& r == Ok::<Seq<MetaView<EventDataView>>, Error>(expected)
    }

    /// What discarding card `c` from the hand does.
    pub open spec fn discard_step(
        &self,
        after: Creature,
        c: CardId,
        a: MetaView<ActionDataView>,
        r: Result<Seq<MetaView<EventDataView>>, Error>,
    ) -> bool {
        let ix = find_from(self.hand@, c, 0);
        if ix == -1 {
            r == Err::<Seq<MetaView<EventDataView>>, Error>(Error::NoSuchCard) && after.same_as(*self)
        } else {
            &&& after.same_but_deck(*self)
            &&& after.hand@ == self.hand@.remove(ix)
            &&& after.discard@ == self.discard@.push(c)
            &&& after.draw@ == self.draw@
            &&& r == Ok::<Seq<MetaView<EventDataView>>, Error>(seq![carried(a, EventDataView::Discarded)])
        }
    }

    /// What resolving action `a` on part `pid` does: the part resolves it; if the part
    /// breaks, a vital part kills the creature, the points drop to their new maximum, and
    /// if the part was open, chance opens one unbroken part.
    pub open spec fn part_path_step(
        &self,
        after: Creature,
        cid: Id<Creature>,
        pid: Id<Part>,
        a: MetaView<ActionDataView>,
        r: Result<Seq<MetaView<EventDataView>>, Error>,
    ) -> bool {
        if !self.parts@.contains_key(pid@) {
            r == Err::<Seq<MetaView<EventDataView>>, Error>(Error::NoSuchPart) && after.same_as(*self)
        } else {
            let p = self.parts@[pid@];
            match p.step(a.data).result {
                Err(e) => r == Err::<Seq<MetaView<EventDataView>>, Error>(e) && after.same_as(*self),
                Ok(_) => exists|q: Part, pes: Seq<MetaView<EventDataView>>| #[trigger] self.part_path_outcome(after, cid, pid, a, r, q, pes),
            }
        }
    }

    /// What resolving action `a` on part `pid` does when the part takes it: the part ends
    /// as `q` reporting `pes`, then come the creature's own consequences.
    pub open spec fn part_path_outcome(
        &self,
        after: Creature,
        cid: Id<Creature>,
        pid: Id<Part>,
        a: MetaView<ActionDataView>,
        r: Result<Seq<MetaView<EventDataView>>, Error>,
        q: Part,
        pes: Seq<MetaView<EventDataView>>,
    ) -> bool {
        let p = self.parts@[pid@];
        let idx = self.parts.key_seq().index_of(pid@);
        let mid = self.part_seq().update(idx, q);
        let mid_map = self.parts@.insert(pid@, q);
        let broke = !p.spec_tags().contains(PartTag::Broken) && q.spec_tags().contains(PartTag::Broken);
        let died = broke && q.spec_tags().contains(PartTag::Vital);
        let ap_max = unbroken_sum(mid, Stat::Thought);
        let mp_sum = unbroken_sum(mid, Stat::Mp);
        let mp_max = if mp_sum >= 1 { mp_sum } else { 1 };
        let ap_drop = broke && self.cur_ap > ap_max;
        let mp_drop = broke && self.cur_mp > mp_max;
        let ub = unbroken_ids(self.parts.id_seq(), mid, mid.len() as int);
        let reopen = broke && p.spec_tags().contains(PartTag::Open) && ub.len() > 0;
        &&& p.resolve_outcome(q, a, Ok(pes))
        &&& r == Ok::<Seq<MetaView<EventDataView>>, Error>(pes
            + (if died { seq![creature_event(a, cid, EventDataView::Died)] } else { Seq::empty() })
            + (if ap_drop { seq![creature_event(a, cid, EventDataView::ChangeAP { delta: (ap_max - self.cur_ap) as i32 })] } else { Seq::empty() })
            + (if mp_drop { seq![creature_event(a, cid, EventDataView::ChangeMP { delta: (mp_max - self.cur_mp) as i32 })] } else { Seq::empty() }))
        &&& after.cur_ap == (if ap_drop { ap_max } else { self.cur_ap as int })
        &&& after.cur_mp == (if mp_drop { mp_max } else { self.cur_mp as int })
        &&& after.dead == died
        &&& after.same_but_parts_and_points(*self)
        &&& after.parts.key_seq() == self.parts.key_seq()
        &&& after.parts.next() == self.parts.next()
        &&& !reopen ==> after.parts@ == mid_map
        &&& reopen ==> exists|k: int, o: Part| 0 <= k < ub.len() && part_opened(mid_map[ub[k]@], o)
            && after.parts@ == mid_map.insert(ub[k]@, o)
    }

    /// What resolving action `a` does to this creature, `r` being the result by views.
    pub open spec fn resolve_step(
        &self,
        after: Creature,
        a: MetaView<ActionDataView>,
        r: Result<Seq<MetaView<EventDataView>>, Error>,
    ) -> bool {
        if self.dead {
            r == Err::<Seq<MetaView<EventDataView>>, Error>(Error::DeadCreature) && after.same_as(*self)
        } else {
            match a.data {
                ActionDataView::GainAP { ap } => self.points_step(after, self.cur_ap + ap, self.cur_mp as int, r,
                    seq![carried(a, EventDataView::ChangeAP { delta: ap })]),
                ActionDataView::SpendAP { ap } => if self.cur_ap < ap {
                    after.same_as(*self) && (r matches Err(Error::NotEnough(s)) && s@ == "AP"@)
                } else {
                    self.points_step(after, self.cur_ap - ap, self.cur_mp as int, r,
                        seq![carried(a, EventDataView::ChangeAP { delta: (-ap) as i32 })])
                },
                ActionDataView::GainMP { mp } => self.points_step(after, self.cur_ap as int, self.cur_mp + mp, r,
                    seq![carried(a, EventDataView::ChangeMP { delta: mp })]),
                ActionDataView::SpendMP { mp } => if self.cur_mp < mp {
                    after.same_as(*self) && (r matches Err(Error::NotEnough(s)) && s@ == "MP"@)
                } else {
                    self.points_step(after, self.cur_ap as int, self.cur_mp - mp, r,
                        seq![carried(a, EventDataView::ChangeMP { delta: (-mp) as i32 })])
                },
                ActionDataView::NewHand => r matches Ok(es) && self.new_hand_step(after, spec_path_creature(a.target)->0, a, es),
                _ => match (a.target, a.data) {
                    (Path::Card { pid, card, .. }, ActionDataView::Discard) => self.discard_step(after, (pid, card), a, r),
                    _ => match spec_path_part(a.target) {
                        Some((cid, pid)) => self.part_path_step(after, cid, pid, a, r),
                        None => r == Err::<Seq<MetaView<EventDataView>>, Error>(Error::UnhandledAction) && after.same_as(*self),
                    },
                },
            }
        }
    }

    /// Resolves `action` on this creature.
    pub fn resolve(&mut self, action: &Action) -> (r: Result<Vec<Event>, Error>)
        requires
            old(self).wf(),
            !old(self).dead ==> old(self).can_take(action@),
        ensures
            final(self).wf(),
            old(self).resolve_step(*final(self), action@, result_views(r)),
    {
        if self.dead {
            return Err(Error::DeadCreature);
        }
        match &action.data {
            ActionData::GainAP { ap } => {
                self.cur_ap = self.cur_ap + *ap;
                let r = vec![action.carry(EventData::ChangeAP { delta: *ap })];
                assert(event_views(r@) =~= seq![carried(action@, EventDataView::ChangeAP { delta: *ap })]);
                return Ok(r);
            },
            ActionData::SpendAP { ap } => {
                if self.cur_ap < *ap {
                    return Err(Error::not_enough("AP"));
                }
                self.cur_ap = self.cur_ap - *ap;
                let delta = -*ap;
                let r = vec![action.carry(EventData::ChangeAP { delta })];
                assert(event_views(r@) =~= seq![carried(action@, EventDataView::ChangeAP { delta })]);
                return Ok(r);
            },
            ActionData::GainMP { mp } => {
                self.cur_mp = self.cur_mp + *mp;
                let r = vec![action.carry(EventData::ChangeMP { delta: *mp })];
                assert(event_views(r@) =~= seq![carried(action@, EventDataView::ChangeMP { delta: *mp })]);
                return Ok(r);
            },
            ActionData::SpendMP { mp } => {
                if self.cur_mp < *mp {
                    return Err(Error::not_enough("MP"));
                }
                self.cur_mp = self.cur_mp - *mp;
                let delta = -*mp;
                let r = vec![action.carry(EventData::ChangeMP { delta })];
                assert(event_views(r@) =~= seq![carried(action@, EventDataView::ChangeMP { delta })]);
                return Ok(r);
            },
            ActionData::NewHand => {
                let cid = action.target.creature().unwrap();
                let out = self.new_hand(action, cid);
                return Ok(out);
            },
            _ => {},
        }
        match (&action.target, &action.data) {
            (Path::Card { pid, card, .. }, ActionData::Discard) => {
                return self.discard_card(action, *pid, *card);
            },
            _ => {},
        }
        match action.target.part() {
            Some((cid, pid)) => self.resolve_part(action, cid, pid),
            None => Err(Error::UnhandledAction),
        }
    }

    fn discard_card(&mut self, action: &Action, pid: Id<Part>, card: Id<Card>) -> (r: Result<Vec<Event>, Error>)
        requires
            old(self).wf(),
        ensures
            final(self).wf(),
            old(self).discard_step(*final(self), (pid, card), action@, result_views(r)),
    {
        let ghost c = (pid, card);
        let mut i: usize = 0;
        proof {
            lemma_find_from(self.hand@, c, 0);
        }
        while i < self.hand.len()
            invariant
                *self == *old(self),
                self.wf(),
                c == (pid, card),
                i <= self.hand@.len(),
                find_from(self.hand@, c, 0) == find_from(self.hand@, c, i as int),
            decreases self.hand@.len() - i,
        {
            let h = self.hand[i];
            if same_id(&h.0, &pid) && same_id(&h.1, &card) {
                proof {
                    assert(h == c);
                }
                let x = self.hand.remove(i);
                self.discard.push(x);
                let r = vec![action.carry(EventData::Discarded)];
                assert(event_views(r@) =~= seq![carried(action@, EventDataView::Discarded)]);
                return Ok(r);
            }
            i = i + 1;
        }
        Err(Error::NoSuchCard)
    }
}

/// Each id of `unbroken_ids` is one of the first `n` ids, of a part that is not broken.
proof fn lemma_unbroken_id_at(ids: Seq<Id<Part>>, ps: Seq<Part>, n: int, k: int) -> (j: int)
    requires
        0 <= n <= ids.len(),
        n <= ps.len(),
        0 <= k < unbroken_ids(ids, ps, n).len(),
    ensures
        0 <= j < n,
        unbroken_ids(ids, ps, n)[k] == ids[j],
        part_unbroken(ps[j]),
    decreases n,
{
    let u0 = unbroken_ids(ids, ps, n - 1);
    if k < u0.len() {
        lemma_unbroken_id_at(ids, ps, n - 1, k)
    } else {
        n - 1
    }
}

impl Creature {
    fn resolve_part(&mut self, action: &Action, cid: Id<Creature>, pid: Id<Part>) -> (r: Result<Vec<Event>, Error>)
        requires
            old(self).wf(),
            !old(self).dead,
            old(self).cur_ap + abs_sum(old(self).part_seq(), Stat::Thought) <= i32::MAX + 1,
            old(self).parts@.contains_key(pid@) ==> old(self).parts@[pid@].can_take(action.data@),
        ensures
            final(self).wf(),
            old(self).part_path_step(*final(self), cid, pid, action@, result_views(r)),
    {
        let ghost a = action@;
        let ghost ks = self.parts.key_seq();
        let ghost ps0 = self.part_seq();
        proof {
            self.parts.lemma_view();
        }
        let had_open: bool;
        let broke: bool;
        let vital: bool;
        let mut out: Vec<Event>;
        let ghost q: Part;
        let ghost p: Part;
        match self.parts.get_mut(&pid) {
            None => {
                proof {
                    self.parts.lemma_view();
                    assert(self.part_seq() =~= ps0) by {
                        assert forall|i: int| 0 <= i < ps0.len() implies #[trigger] self.part_seq()[i] == ps0[i] by {
                            assert(self.parts@[ks[i]] == self.part_seq()[i]);
                        }
                    }
                }
                return Err(Error::NoSuchPart);
            },
            Some(part) => {
                proof {
                    p = *part;
                    let idx = ks.index_of(pid@);
                    ks.index_of_first(pid@);
                    assert(ks.contains(pid@));
                    assert(ps0[idx] == p);
                }
                assert(part.wf());
                let old_tags = part.tags();
                match part.resolve(action) {
                    Err(e) => {
                        proof {
                            self.parts.lemma_view();
                            assert(self.parts@ =~= old(self).parts@);
                            assert(self.part_seq() =~= ps0) by {
                                assert forall|i: int| 0 <= i < ps0.len() implies #[trigger] self.part_seq()[i] == ps0[i] by {
                                    assert(self.parts@[ks[i]] == self.part_seq()[i]);
                                }
                            }
                        }
                        return Err(e);
                    },
                    Ok(es) => {
                        let new_tags = part.tags();
                        had_open = old_tags.contains(&PartTag::Open);
                        broke = !old_tags.contains(&PartTag::Broken) && new_tags.contains(&PartTag::Broken);
                        vital = new_tags.contains(&PartTag::Vital);
                        out = es;
                        proof {
                            q = *part;
                        }
                    },
                }
            },
        }
        assert(self.parts@ == old(self).parts@.insert(pid@, q));
        let ghost pes = event_views(out@);
        let ghost idx = ks.index_of(pid@);
        let ghost mid = ps0.update(idx, q);
        proof {
            self.parts.lemma_view();
            ks.index_of_first(pid@);
            assert(ks.contains(pid@));
            assert(self.part_seq() =~= mid) by {
                assert forall|i: int| 0 <= i < mid.len() implies #[trigger] self.part_seq()[i] == mid[i] by {
                    assert(self.parts.key_seq()[i] == ks[i]);
                    assert(self.parts@[ks[i]] == self.part_seq()[i]);
                    assert(old(self).parts@[ks[i]] == ps0[i]);
                    if i != idx {
                        assert(ks[i] != pid@);
                    } else {
                        assert(ks[i] == pid@);
                    }
                }
            }
            assert forall|i: int| 0 <= i < mid.len() implies (#[trigger] mid[i]).wf() by {
                if i != idx {
                    assert(ps0[i].wf());
                }
            }
            assert forall|st: Stat| abs_sum(mid, st) == abs_sum(ps0, st) by {
                lemma_abs_sum_same_stats(mid, ps0, st);
            }
            lemma_sum_bound(mid, Stat::Thought);
        }
        let mut self_died = false;
        let ghost died = broke && vital;
        let ghost ap_max = unbroken_sum(mid, Stat::Thought);
        let ghost mp_sum = unbroken_sum(mid, Stat::Mp);
        let ghost mp_max = if mp_sum >= 1 { mp_sum } else { 1 };
        let ghost ap_drop = broke && old(self).cur_ap > ap_max;
        let ghost mp_drop = broke && old(self).cur_mp > mp_max;
        let ghost died_s: Seq<MetaView<EventDataView>> = if died { seq![creature_event(a, cid, EventDataView::Died)] } else { Seq::empty() };
        let ghost ap_s: Seq<MetaView<EventDataView>> = if ap_drop { seq![creature_event(a, cid, EventDataView::ChangeAP { delta: (ap_max - old(self).cur_ap) as i32 })] } else { Seq::empty() };
        let ghost mp_s: Seq<MetaView<EventDataView>> = if mp_drop { seq![creature_event(a, cid, EventDataView::ChangeMP { delta: (mp_max - old(self).cur_mp) as i32 })] } else { Seq::empty() };
        if broke {
            if vital {
                self_died = true;
                let mut ev = action.carry(EventData::Died);
                ev.target = Path::Creature { cid };
                assert(ev@ == creature_event(a, cid, EventDataView::Died));
                let ghost o0 = out@;
                out.push(ev);
                assert(event_views(out@) =~= event_views(o0).push(ev@));
            }
            assert(event_views(out@) =~= pes + died_s);
            let max_ap = self.max_ap();
            if self.cur_ap > max_ap {
                let delta = max_ap - self.cur_ap;
                let mut ev = action.carry(EventData::ChangeAP { delta });
                ev.target = Path::Creature { cid };
                assert(ev@ == creature_event(a, cid, EventDataView::ChangeAP { delta }));
                let ghost o0 = out@;
                out.push(ev);
                assert(event_views(out@) =~= event_views(o0).push(ev@));
                self.cur_ap = max_ap;
            }
            assert(event_views(out@) =~= pes + died_s + ap_s);
            let max_mp = self.max_mp();
            if self.cur_mp > max_mp {
                let delta = max_mp - self.cur_mp;
                let mut ev = action.carry(EventData::ChangeMP { delta });
                ev.target = Path::Creature { cid };
                assert(ev@ == creature_event(a, cid, EventDataView::ChangeMP { delta }));
                let ghost o0 = out@;
                out.push(ev);
                assert(event_views(out@) =~= event_views(o0).push(ev@));
                self.cur_mp = max_mp;
            }
            assert(event_views(out@) =~= pes + died_s + ap_s + mp_s);
        } else {
            assert(event_views(out@) =~= pes + died_s + ap_s + mp_s);
        }
        let ghost mid_map = old(self).parts@.insert(pid@, q);
        let ghost ub = unbroken_ids(old(self).parts.id_seq(), mid, mid.len() as int);
        let ghost reopen = broke && p.spec_tags().contains(PartTag::Open) && ub.len() > 0;
        assert(self.parts@ == mid_map);
        assert(self.parts.id_seq() == old(self).parts.id_seq());
        if broke && had_open {
            let ids = self.unbroken_parts();
            assert(ids@ == ub);
            if ids.len() > 0 {
                let ix = random_below(ids.len());
                let pid2 = ids[ix];
                let ghost j: int;
                proof {
                    j = lemma_unbroken_id_at(self.parts.id_seq(), self.part_seq(), self.part_seq().len() as int, ix as int);
                    assert(self.parts.key_seq()[j] == pid2@);
                    assert(self.parts.key_seq().contains(pid2@));
                }
                let ghost before = self.part_seq();
                let ghost o: Part;
                match self.parts.get_mut(&pid2) {
                    Some(p2) => {
                        assert(p2.wf());
                        p2.base_tags.insert(PartTag::Open);
                        assert(p2.wf());
                        proof {
                            o = *p2;
                        }
                    },
                    None => {
                        proof {
                            o = before[j];
                        }
                    },
                }
                proof {
                    assert(self.parts@ == mid_map.insert(pid2@, o));
                    assert(part_opened(mid_map[ub[ix as int]@], o));
                    self.parts.lemma_view();
                    assert forall|i: int| 0 <= i < self.part_seq().len() implies (#[trigger] self.part_seq()[i]).wf() by {
                        let k = self.parts.key_seq()[i];
                        assert(self.parts@[k] == self.part_seq()[i]);
                        assert(mid_map[k] == before[i]);
                        if k != pid2@ {
                            assert(before[i].wf());
                        }
                    }
                    assert forall|st: Stat| abs_sum(self.part_seq(), st) == abs_sum(before, st) by {
                        assert forall|i: int| 0 <= i < before.len() implies stat_of(#[trigger] self.part_seq()[i], st) == stat_of(before[i], st) by {
                            let k = self.parts.key_seq()[i];
                            assert(self.parts@[k] == self.part_seq()[i]);
                            assert(mid_map[k] == before[i]);
                        }
                        lemma_abs_sum_same_stats(self.part_seq(), before, st);
                    }
                    assert(reopen);
                    assert(exists|k: int, o2: Part| 0 <= k < ub.len() && part_opened(mid_map[ub[k]@], o2)
                        && self.parts@ == mid_map.insert(ub[k]@, o2));
                }
            }
        }
        if self_died {
            self.dead = true;
        }
        proof {
            assert(self.dead == died);
            assert(old(self).parts@[pid@] == p);
            assert(p.resolve_outcome(q, a, Ok(pes)));
            assert(old(self).part_path_outcome(*self, cid, pid, a, result_views(Ok::<Vec<Event>, Error>(out)), q, pes));
        }
        Ok(out)
    }
}

/// Two part lists with the same stats have the same sums.
pub proof fn lemma_abs_sum_same_stats(a: Seq<Part>, b: Seq<Part>, s: Stat)
    requires
        a.len() == b.len(),
        forall|i: int| 0 <= i < a.len() ==> stat_of(#[trigger] a[i], s) == stat_of(b[i], s),
    ensures
        abs_sum(a, s) == abs_sum(b, s),
    decreases a.len(),
{
    if a.len() > 0 {
        lemma_abs_sum_same_stats(a.drop_last(), b.drop_last(), s);
    }
}

/// Both creatures have an NPC with the same intent and behavior, or neither has one.
pub open spec fn npc_like(a: Option<NPC>, b: Option<NPC>) -> bool {
    match (a, b) {
        (None, None) => true,
        (Some(x), Some(y)) => {
            &&& x.intent.name@ == y.intent.name@
            &&& x.intent.from == y.intent.from
            &&& x.intent.cost == y.intent.cost
            &&& x.intent.kind == y.intent.kind
            &&& x.behavior == y.behavior
        },
        _ => false,
    }
}

/// Each part of `a` is like the part of `b` at the same place.
pub open spec fn parts_like(a: Seq<Part>, b: Seq<Part>) -> bool {
    &&& a.len() == b.len()
    &&& forall|i: int| 0 <= i < a.len() ==> (#[trigger] a[i]).like(b[i])
}

impl Creature {
    /// Both creatures have the same name, parts, points, piles, NPC and statuses.
    pub open spec fn like(&self, o: Creature) -> bool {
        &&& self.name@ == o.name@
        &&& self.parts.id_seq() == o.parts.id_seq()
        &&& self.parts.key_seq() == o.parts.key_seq()
        &&& self.parts.next() == o.parts.next()
        &&& parts_like(self.part_seq(), o.part_seq())
        &&& self.cur_ap == o.cur_ap
        &&& self.cur_mp == o.cur_mp
        &&& self.dead == o.dead
        &&& npc_like(self.npc, o.npc)
        &&& self.draw@ == o.draw@
        &&& self.hand@ == o.hand@
        &&& self.discard@ == o.discard@
        &&& self.entity.status.same_entries(o.entity.status)
    }

    /// A copy of this creature.
    pub fn duplicate(&self) -> (r: Creature)
        requires
            self.wf(),
        ensures
            r.wf(),
            r.like(*self),
    {
        let vals = self.parts.values();
        let mut parts: Vec<Part> = Vec::new();
        let mut i: usize = 0;
        while i < vals.len()
            invariant
                vals@ == self.part_seq(),
                forall|k: int| 0 <= k < vals@.len() ==> (#[trigger] vals@[k]).wf(),
                i <= vals@.len(),
                parts@.len() == i,
                forall|k: int| 0 <= k < i ==> (#[trigger] parts@[k]).wf() && parts@[k].like(vals@[k]),
            decreases vals@.len() - i,
        {
            parts.push(vals[i].duplicate());
            i = i + 1;
        }
        let ghost pv = parts@;
        let npc = match &self.npc {
            Some(n) => Some(copy_npc(n)),
            None => None,
        };
        let r = Creature {
            name: self.name.clone(),
            parts: self.parts.with_values(parts),
            cur_ap: self.cur_ap,
            cur_mp: self.cur_mp,
            dead: self.dead,
            npc,
            draw: copy_cards(&self.draw),
            hand: copy_cards(&self.hand),
            discard: copy_cards(&self.discard),
            entity: self.entity.duplicate(),
        };
        proof {
            assert(r.part_seq() == pv);
            assert forall|s: Stat| abs_sum(r.part_seq(), s) == abs_sum(self.part_seq(), s) by {
                lemma_abs_sum_same_stats(r.part_seq(), self.part_seq(), s);
            }
            assert(abs_sum(r.part_seq(), Stat::Thought) == abs_sum(self.part_seq(), Stat::Thought));
            assert(abs_sum(r.part_seq(), Stat::Memory) == abs_sum(self.part_seq(), Stat::Memory));
            assert(abs_sum(r.part_seq(), Stat::Mp) == abs_sum(self.part_seq(), Stat::Mp));
        }
        r
    }
}

/// A copy of a pile of cards.
fn copy_cards(cards: &Vec<CardId>) -> (r: Vec<CardId>)
    ensures
        r@ == cards@,
{
    let mut out: Vec<CardId> = Vec::new();
    let mut i: usize = 0;
    while i < cards.len()
        invariant
            i <= cards@.len(),
            out@ == cards@.take(i as int),
        decreases cards@.len() - i,
    {
        out.push(cards[i]);
        assert(out@ =~= cards@.take(i + 1));
        i = i + 1;
    }
    assert(out@ =~= cards@);
    out
}

impl Creature {
    /// The creature's NPC, for changing in place, if it has one.
    pub fn npc_mut(&mut self) -> (r: Option<&mut NPC>)
        ensures
            match r {
                Some(n) => old(self).npc == Some(*n) && *final(self) == (Creature { npc: Some(*final(n)), ..*old(self) }),
                None => old(self).npc is None && *final(self) == *old(self),
            },
    {
        match &mut self.npc {
            Some(n) => Some(n),
            None => None,
        }
    }

    /// The sum of the sizes of the thought of all parts.
    fn abs_thought(&self) -> (r: i64)
        requires
            self.wf(),
        ensures
            r == abs_sum(self.part_seq(), Stat::Thought),
            0 <= r <= i32::MAX,
    {
        let parts = self.parts.values();
        let ghost ps = self.part_seq();
        proof {
            lemma_sum_bound(ps, Stat::Thought);
            assert(ps.take(0) =~= Seq::<Part>::empty());
        }
        let mut acc: i64 = 0;
        let mut i: usize = 0;
        while i < parts.len()
            invariant
                parts@ == ps,
                ps == self.part_seq(),
                i <= ps.len(),
                acc == abs_sum(ps.take(i as int), Stat::Thought),
                abs_sum(ps, Stat::Thought) <= i32::MAX,
            decreases ps.len() - i,
        {
            proof {
                lemma_abs_sum_prefix(ps, Stat::Thought, i + 1);
                lemma_sum_bound(ps.take(i + 1), Stat::Thought);
                lemma_sum_bound(ps.take(i as int), Stat::Thought);
                assert(ps.take(i + 1).drop_last() =~= ps.take(i as int));
            }
            let t = parts[i].thought as i64;
            acc = acc + if t < 0 { -t } else { t };
            i = i + 1;
        }
        proof {
            assert(ps.take(ps.len() as int) =~= ps);
        }
        acc
    }

    /// Whether this creature can take `action` without an overflow (see `can_take`).
    pub fn check_take(&self, action: &Action) -> (r: bool)
        requires
            self.wf(),
        ensures
            r == self.can_take(action@),
    {
        match &action.data {
            ActionData::GainAP { ap } => {
                let v = self.cur_ap as i64 + *ap as i64;
                i32::MIN as i64 <= v && v <= i32::MAX as i64
            },
            ActionData::SpendAP { ap } => {
                *ap != i32::MIN && (self.cur_ap as i64 - *ap as i64) <= i32::MAX as i64
            },
            ActionData::GainMP { mp } => {
                let v = self.cur_mp as i64 + *mp as i64;
                i32::MIN as i64 <= v && v <= i32::MAX as i64
            },
            ActionData::SpendMP { mp } => {
                *mp != i32::MIN && (self.cur_mp as i64 - *mp as i64) <= i32::MAX as i64
            },
            ActionData::NewHand => action.target.creature().is_some(),
            _ => match action.target.part() {
                Some((_, pid)) => {
                    let total = self.cur_ap as i64 + self.abs_thought();
                    if total > i32::MAX as i64 + 1 {
                        return false;
                    }
                    match self.parts.get(&pid) {
                        Some(p) => match &action.data {
                            ActionData::AddTagMod { .. } => p.tag_mods.next_below_max(),
                            _ => true,
                        },
                        None => true,
                    }
                },
                None => true,
            },
        }
    }
}

proof fn lemma_card_events_local(
    a: MetaView<ActionDataView>,
    cid: Id<Creature>,
    s: Seq<CardId>,
    d: EventDataView,
)
    requires
        !spec_is_global(d),
    ensures
        local_events(card_events(a, cid, s, d)),
{
    assert forall|i: int| 0 <= i < card_events(a, cid, s, d).len() implies !spec_is_global(
        #[trigger] card_events(a, cid, s, d)[i].data,
    ) by {
        assert(card_events(a, cid, s, d)[i] == card_event(a, cid, s[i], d));
    }
}

/// What a creature reports on an action is never heard by every entity.
pub proof fn lemma_resolve_local(
    c: Creature,
    after: Creature,
    a: MetaView<ActionDataView>,
    es: Seq<MetaView<EventDataView>>,
)
    requires
        c.resolve_step(after, a, Ok(es)),
    ensures
        local_events(es),
{
    if !c.dead {
        match a.data {
            ActionDataView::NewHand => {
                let cid = spec_path_creature(a.target)->0;
                let d1 = min(
                    if c.spec_hand_size() > 0 { c.spec_hand_size() } else { 0 },
                    c.draw@.len() as int,
                );
                let e1 = card_events(a, cid, c.hand@, EventDataView::Discarded);
                let e2 = card_events(a, cid, after.hand@.take(d1), EventDataView::Drew);
                let e4 = card_events(a, cid, after.hand@.skip(d1), EventDataView::Drew);
                lemma_card_events_local(a, cid, c.hand@, EventDataView::Discarded);
                lemma_card_events_local(a, cid, after.hand@.take(d1), EventDataView::Drew);
                lemma_card_events_local(a, cid, after.hand@.skip(d1), EventDataView::Drew);
                assert forall|i: int| 0 <= i < es.len() implies !spec_is_global(#[trigger] es[i].data) by {
                    if i < e1.len() {
                        assert(es[i] == e1[i]);
                    } else if i < e1.len() + e2.len() {
                        assert(es[i] == e2[i - e1.len()]);
                    } else {
                        let e3len = es.len() - e1.len() - e2.len() - e4.len();
                        if i >= e1.len() + e2.len() + e3len {
                            assert(es[i] == e4[i - e1.len() - e2.len() - e3len]);
                        }
                    }
                }
            },
            _ => match (a.target, a.data) {
                (Path::Card { pid, card, .. }, ActionDataView::Discard) => {},
                _ => match spec_path_part(a.target) {
                    Some((cid, pid)) => {
                        if c.parts@.contains_key(pid@) {
                            let p = c.parts@[pid@];
                            if p.step(a.data).result is Ok {
                                let (q, pes) = choose|q: Part, pes: Seq<MetaView<EventDataView>>|
                                    #[trigger] c.part_path_outcome(after, cid, pid, a, Ok(es), q, pes);
                                lemma_outcome_local(p, q, a, pes);
                                assert forall|i: int| 0 <= i < es.len() implies !spec_is_global(#[trigger] es[i].data) by {
                                    if i < pes.len() {
                                        assert(es[i] == pes[i]);
                                    }
                                }
                            }
                        }
                    },
                    None => {},
                },
            },
        }
    }
}

/// A creature stays sound when one of its parts gives way to a sound part with the same
/// stats.
pub proof fn lemma_part_replaced_wf(c: Creature, c2: Creature, pid: Id<Part>, q2: Part)
    requires
        c.wf(),
        c2.parts.wf(),
        (Creature { parts: c.parts, ..c2 }) == c,
        c.parts@.contains_key(pid@),
        c2.parts@ == c.parts@.insert(pid@, q2),
        c2.parts.key_seq() == c.parts.key_seq(),
        q2.wf(),
        q2.thought == c.parts@[pid@].thought,
        q2.memory == c.parts@[pid@].memory,
        q2.mp == c.parts@[pid@].mp,
    ensures
        c2.wf(),
{
    IdMap::lemma_values_replaced(c.parts, c2.parts, pid@, q2);
    let idx = c.parts.key_seq().index_of(pid@);
    let ps = c.part_seq();
    let ps2 = c2.part_seq();
    c.parts.lemma_view();
    assert(ps[idx] == c.parts@[pid@]);
    assert forall|i: int| 0 <= i < ps2.len() implies (#[trigger] ps2[i]).wf() by {
        if i != idx {
            assert(ps2[i] == ps[i]);
        }
    }
    assert forall|st: Stat| abs_sum(ps2, st) == abs_sum(ps, st) by {
        assert forall|i: int| 0 <= i < ps2.len() implies stat_of(#[trigger] ps2[i], st) == stat_of(ps[i], st) by {
        }
        lemma_abs_sum_same_stats(ps2, ps, st);
    }
}

/// Gaining action points and then spending as many gives back the points the creature
/// had, for a living creature whose points are not negative.
pub proof fn law_gain_then_spend_ap(
    c0: Creature,
    c1: Creature,
    c2: Creature,
    a1: MetaView<ActionDataView>,
    a2: MetaView<ActionDataView>,
    r1: Result<Seq<MetaView<EventDataView>>, Error>,
    r2: Result<Seq<MetaView<EventDataView>>, Error>,
    ap: i32,
)
    requires
        !c0.dead,
        c0.cur_ap >= 0,
        a1.data == (ActionDataView::GainAP { ap }),
        a2.data == (ActionDataView::SpendAP { ap }),
        c0.resolve_step(c1, a1, r1),
        c1.resolve_step(c2, a2, r2),
    ensures
        r1 is Ok,
        r2 is Ok,
        c2.cur_ap == c0.cur_ap,
        c2.cur_mp == c0.cur_mp,
        c2.parts@ == c0.parts@,
{
}

/// Spending points fails, changing nothing, exactly when the creature has too few.
pub proof fn law_spend_ap_needs_points(c0: Creature, c1: Creature, a: MetaView<ActionDataView>, r: Result<Seq<MetaView<EventDataView>>, Error>, ap: i32)
    requires
        !c0.dead,
        a.data == (ActionDataView::SpendAP { ap }),
        c0.resolve_step(c1, a, r),
    ensures
        r is Err <==> c0.cur_ap < ap,
        r is Err ==> c1.cur_ap == c0.cur_ap,
        r is Ok ==> c1.cur_ap == c0.cur_ap - ap,
{
}

/// Every card a creature holds: its hand, draw pile and discard pile together.
pub open spec fn held_cards(c: Creature) -> Multiset<CardId> {
    (c.hand@ + c.draw@ + c.discard@).to_multiset()
}

proof fn lemma_held_split(c: Creature)
    ensures
        held_cards(c) == c.hand@.to_multiset().add(c.draw@.to_multiset()).add(c.discard@.to_multiset()),
{
    vstd::seq_lib::lemma_multiset_commutative(c.hand@ + c.draw@, c.discard@);
    vstd::seq_lib::lemma_multiset_commutative(c.hand@, c.draw@);
}

/// Resolving any action neither creates, loses nor copies a card: the hand, draw and
/// discard piles hold together the same cards before and after, whether the action
/// succeeds or fails.
pub proof fn law_cards_conserved(
    c: Creature,
    after: Creature,
    a: MetaView<ActionDataView>,
    r: Result<Seq<MetaView<EventDataView>>, Error>,
)
    requires
        c.resolve_step(after, a, r),
    ensures
        held_cards(after) == held_cards(c),
{
    broadcast use vstd::multiset::group_multiset_axioms;
    broadcast use vstd::seq_lib::group_to_multiset_ensures;

    lemma_held_split(c);
    lemma_held_split(after);
    if c.dead {
        return;
    }
    match a.data {
        ActionDataView::NewHand => {
            let es = r->Ok_0;
            assert(c.new_hand_step(after, spec_path_creature(a.target)->0, a, es));
            let h0 = c.hand@;
            let d0 = c.draw@;
            let x1 = c.discard@ + h0;
            let hs = if c.spec_hand_size() > 0 { c.spec_hand_size() } else { 0 };
            let total = (d0.len() + x1.len()) as int;
            let n = min(hs, total);
            let d1 = min(hs, d0.len() as int);
            let recycled = d0.len() < hs && x1.len() > 0;
            let len = d0.len() as int;
            vstd::seq_lib::lemma_multiset_commutative(c.discard@, h0);
            vstd::seq_lib::lemma_multiset_commutative(d0.take(len - d1), d0.skip(len - d1));
            assert(d0.take(len - d1) + d0.skip(len - d1) =~= d0);
            d0.skip(len - d1).lemma_reverse_to_multiset();
            if !recycled {
                assert(after.hand@ =~= d0.skip(len - d1).reverse());
                assert(after.hand@.to_multiset().add(after.draw@.to_multiset()) =~= d0.to_multiset());
                assert(after.discard@.to_multiset() =~= c.discard@.to_multiset().add(h0.to_multiset()));
            } else {
                let hd = after.hand@;
                assert(d1 == len);
                assert(hd.take(d1) =~= d0.skip(len - d1).reverse());
                assert(hd.take(d1) + hd.skip(d1) =~= hd);
                vstd::seq_lib::lemma_multiset_commutative(hd.take(d1), hd.skip(d1));
                vstd::seq_lib::lemma_multiset_commutative(after.draw@, hd.skip(d1));
                assert(after.discard@.to_multiset() =~= Multiset::<CardId>::empty());
            }
            assert(held_cards(after) =~= held_cards(c));
        },
        ActionDataView::GainAP { .. } => {},
        ActionDataView::SpendAP { .. } => {},
        ActionDataView::GainMP { .. } => {},
        ActionDataView::SpendMP { .. } => {},
        _ => match (a.target, a.data) {
            (Path::Card { pid, card, .. }, ActionDataView::Discard) => {
                let ix = find_from(c.hand@, (pid, card), 0);
                lemma_find_from(c.hand@, (pid, card), 0);
                if ix != -1 {
                    assert(c.hand@.to_multiset().count((pid, card)) > 0);
                    assert(held_cards(after) =~= held_cards(c));
                }
            },
            _ => match spec_path_part(a.target) {
                Some((cid, pid)) => {
                    if c.parts@.contains_key(pid@) && c.parts@[pid@].step(a.data).result is Ok {
                        let (q, pes) = choose|q: Part, pes: Seq<MetaView<EventDataView>>| #[trigger] c.part_path_outcome(after, cid, pid, a, r, q, pes);
                    }
                },
                None => {},
            },
        },
    }
}

/// A sound creature's maximum action and move points fit an `i32`.
pub proof fn lemma_max_points_fit(c: Creature)
    requires
        c.wf(),
    ensures
        i32::MIN <= c.spec_max_ap() <= i32::MAX,
        i32::MIN <= c.spec_max_mp() <= i32::MAX,
{
    lemma_sum_bound(c.part_seq(), Stat::Thought);
    lemma_sum_bound(c.part_seq(), Stat::Mp);
}

} // verus!
