//! Creatures the game controls: what they intend to do next, and how they choose.
use vstd::prelude::*;
use vstd::string::StringExecFns;
use crate::action::{
    ActionData, ActionDataView, Event, EventData, EventDataView, Meta, MetaView, Path, event_views,
    extend_events, failed_event, to_creature,
};
use crate::creature::{Creature, ids_with_tag};
use crate::error::Error;
use crate::hex::{Hex, hex_distance, spec_neighbors};
use crate::id_map::{Id, same_id};
use crate::library::npc::Monopod;
use crate::map::{Tile, tile_open};
use crate::part::{Part, PartTag};
use crate::vec_set::VecSet;
use crate::world::{World, normal_action, normal_to};

verus! {

#[derive(Debug, Clone)]
pub struct NPC {
    pub intent: Intent,
    pub behavior: Behavior,
}

/// What a creature means to do on its next turn.
#[derive(Debug, Clone)]
pub struct Intent {
    pub name: String,
    /// The part that acts, if one does.
    pub from: Option<Id<Part>>,
    /// Action points the intent needs.
    pub cost: i32,
    pub kind: IntentKind,
}

#[derive(Debug, Clone, Copy)]
pub enum IntentKind {
    Attack { damage: i32, range: Range },
    Stunned,
}

#[derive(Debug, Clone, Copy, PartialEq, Eq, Structural, Hash)]
pub enum Range {
    Melee,
}

/// How a creature picks its intents.
#[derive(Debug, Clone, Copy)]
pub enum Behavior {
    Monopod(Monopod),
}

/// Why an intent cannot be carried out.
pub enum IntentFault {
    NoCreature,
    NoAp,
    NoPart,
    Broken,
}

/// Why creature `source` cannot carry out an intent from part `from` costing `cost` in
/// world `w`, if it cannot: it must exist, have the action points, and the acting part, if
/// any, must exist and not be broken.
pub open spec fn spec_intent_fault(from: Option<Id<Part>>, cost: i32, w: World, source: Id<Creature>) -> Option<IntentFault> {
    let cs = w.creature_view();
    if !cs.contains_key(source@) {
        Some(IntentFault::NoCreature)
    } else if cs[source@].cur_ap < cost {
        Some(IntentFault::NoAp)
    } else {
        match from {
            Some(pid) => if !cs[source@].parts@.contains_key(pid@) {
                Some(IntentFault::NoPart)
            } else if cs[source@].parts@[pid@].spec_tags().contains(PartTag::Broken) {
                Some(IntentFault::Broken)
            } else {
                None
            },
            None => None,
        }
    }
}

/// `e` is the error that reports fault `f`.
pub open spec fn fault_error(e: Error, f: IntentFault) -> bool {
    match f {
        IntentFault::NoCreature => e is NoSuchCreature,
        IntentFault::NoAp => e matches Error::NotEnough(s) && s@ == "AP"@,
        IntentFault::NoPart => e is NoSuchPart,
        IntentFault::Broken => e is BrokenPart,
    }
}

/// Whether creature `source` is where intent kind `k` can be carried out: a melee attack
/// needs it right next to the player.
pub open spec fn spec_kind_check(k: IntentKind, w: World, source: Id<Creature>) -> Result<(), Error> {
    let places = w.sp_map().places_view();
    match k {
        IntentKind::Attack { range, .. } => if !places.contains_key(source@) || !places.contains_key(w.sp_player()@) {
            Err(Error::OutOfBounds)
        } else if hex_distance(places[source@], places[w.sp_player()@]) != 1 {
            Err(Error::OutOfRange)
        } else {
            Ok(())
        },
        IntentKind::Stunned => Ok(()),
    }
}

/// The attack of creature `source` on part `pid` of the player.
pub open spec fn npc_hit(source: Id<Creature>, player: Id<Creature>, pid: Id<Part>, damage: i32) -> MetaView<ActionDataView> {
    MetaView {
        source: Path::Creature { cid: source },
        target: Path::Part { cid: player, pid },
        tags: Set::empty(),
        data: ActionDataView::Hit { damage },
    }
}

/// `k` is the first position in `ids` of a part with the fewest hit points.
pub open spec fn first_weakest(ids: Seq<Id<Part>>, parts: Map<u32, Part>, k: int) -> bool {
    &&& 0 <= k < ids.len()
    &&& forall|j: int| 0 <= j < ids.len() ==> parts[ids[k]@].cur_hp <= #[trigger] parts[ids[j]@].cur_hp
    &&& forall|j: int| 0 <= j < k ==> parts[ids[k]@].cur_hp < #[trigger] parts[ids[j]@].cur_hp
}

/// The player's open parts, in order.
pub open spec fn player_open_parts(w: World) -> Seq<Id<Part>> {
    let p = w.creature_view()[w.sp_player()@];
    ids_with_tag(p.parts.id_seq(), p.part_seq(), PartTag::Open, p.part_seq().len() as int)
}

/// What carrying out intent kind `k` does: an attack hits the player's open part with the
/// fewest hit points, the first such in order, and does nothing when no part is open; a
/// stunned creature only says so.
pub open spec fn kind_act_step(k: IntentKind, w: World, after: World, source: Id<Creature>, es: Seq<MetaView<EventDataView>>) -> bool {
    match k {
        IntentKind::Attack { damage, .. } => {
            let opens = player_open_parts(w);
            if opens.len() == 0 {
                after == w && es == Seq::<MetaView<EventDataView>>::empty()
            } else {
                exists|k: int|
                    #[trigger] first_weakest(opens, w.creature_view()[w.sp_player()@].parts@, k) && w.execute_step(
                        after,
                        npc_hit(source, w.sp_player(), opens[k], damage),
                        es,
                    )
            }
        },
        IntentKind::Stunned => after == w && es == seq![
            MetaView { source: Path::Global, target: Path::Creature { cid: source }, tags: Set::empty(), data: EventDataView::FloatText { text: "Stunned!"@ } }
        ],
    }
}

impl IntentKind {
    /// Whether the creature is where this kind of intent can be carried out.
    pub fn check(&self, world: &World, source: Id<Creature>) -> (r: Result<(), Error>)
        requires
            world.wf(),
        ensures
            r == spec_kind_check(*self, *world, source),
    {
        match self {
            IntentKind::Attack { range, .. } => {
                let creature_pos = match world.map().creature_hex(source) {
                    Some(h) => h,
                    None => return Err(Error::OutOfBounds),
                };
                let player_pos = match world.map().creature_hex(world.player_id()) {
                    Some(h) => h,
                    None => return Err(Error::OutOfBounds),
                };
                let dist = creature_pos.distance_to(player_pos);
                match range {
                    Range::Melee => {
                        if dist != 1 {
                            return Err(Error::OutOfRange);
                        }
                    },
                }
                Ok(())
            },
            IntentKind::Stunned => Ok(()),
        }
    }

    /// Moves the creature as this kind of intent needs.
    pub fn move_(&self, world: &mut World, source: Id<Creature>) -> (r: Result<Vec<Event>, Error>)
        requires
            old(world).wf(),
        ensures
            final(world).wf(),
            match *self {
                IntentKind::Attack { .. } => melee_move_step(*old(world), *final(world), source, r),
                IntentKind::Stunned => *final(world) == *old(world) && (r matches Ok(v) && v@.len() == 0),
            },
    {
        match self {
            IntentKind::Attack { range: Range::Melee, .. } => move_to_melee(world, source),
            IntentKind::Stunned => Ok(Vec::new()),
        }
    }

    /// Carries out this kind of intent for creature `source`.
    pub fn act(&self, world: &mut World, source: Id<Creature>, _part: Option<Id<Part>>) -> (out: Vec<Event>)
        requires
            old(world).wf(),
        ensures
            final(world).wf(),
            kind_act_step(*self, *old(world), *final(world), source, event_views(out@)),
    {
        match self {
            IntentKind::Attack { damage, .. } => {
                proof {
                    world.lemma_wf();
                }
                let player_id = world.player_id();
                let pid = {
                    let player = match world.creatures().get(&player_id) {
                        Some(p) => p,
                        None => {
                            proof {
                                assert(false);
                            }
                            return Vec::new();
                        },
                    };
                    let open = player.open_parts();
                    if open.len() == 0 {
                        let r: Vec<Event> = Vec::new();
                        assert(event_views(r@) =~= Seq::<MetaView<EventDataView>>::empty());
                        return r;
                    }
                    proof {
                        player.parts.lemma_view();
                        lemma_ids_with_tag_in(player.parts.id_seq(), player.part_seq(), PartTag::Open, player.part_seq().len() as int);
                    }
                    let ghost pm = player.parts@;
                    let mut best: usize = 0;
                    let mut best_hp: i32 = match player.parts.get(&open[0]) {
                        Some(p) => p.cur_hp,
                        None => {
                            proof {
                                assert(false);
                            }
                            0
                        },
                    };
                    let mut i: usize = 1;
                    while i < open.len()
                        invariant
                            player.parts.wf(),
                            pm == player.parts@,
                            forall|j: int| 0 <= j < open@.len() ==> pm.contains_key(#[trigger] open@[j]@),
                            1 <= i <= open@.len(),
                            best < i,
                            best_hp == pm[open@[best as int]@].cur_hp,
                            forall|j: int| 0 <= j < i ==> best_hp <= #[trigger] pm[open@[j]@].cur_hp,
                            forall|j: int| 0 <= j < best ==> best_hp < #[trigger] pm[open@[j]@].cur_hp,
                        decreases open@.len() - i,
                    {
                        let hp = match player.parts.get(&open[i]) {
                            Some(p) => p.cur_hp,
                            None => {
                                proof {
                                    assert(false);
                                }
                                0
                            },
                        };
                        if hp < best_hp {
                            best = i;
                            best_hp = hp;
                        }
                        i = i + 1;
                    }
                    proof {
                        assert(first_weakest(open@, pm, best as int));
                    }
                    open[best]
                };
                world.execute(
                    &Meta {
                        source: Path::Creature { cid: source },
                        target: Path::Part { cid: player_id, pid },
                        tags: VecSet::new(),
                        data: ActionData::Hit { damage: *damage },
                    },
                )
            },
            IntentKind::Stunned => {
                let r = vec![to_creature(source, EventData::FloatText { text: String::from_str("Stunned!") })];
                proof {
                    reveal_strlit("Stunned!");
                    assert(event_views(r@) =~= seq![
                        MetaView { source: Path::Global, target: Path::Creature { cid: source }, tags: Set::empty(), data: EventDataView::FloatText { text: "Stunned!"@ } }
                    ]);
                }
                r
            },
        }
    }
}

proof fn lemma_ids_with_tag_in(ids: Seq<Id<Part>>, ps: Seq<Part>, tag: PartTag, n: int)
    requires
        0 <= n <= ids.len(),
        ids.len() == ps.len(),
    ensures
        forall|j: int| 0 <= j < ids_with_tag(ids, ps, tag, n).len() ==> exists|i: int| 0 <= i < n && ids[i] == #[trigger] ids_with_tag(ids, ps, tag, n)[j],
    decreases n,
{
    if n > 0 {
        lemma_ids_with_tag_in(ids, ps, tag, n - 1);
        let prev = ids_with_tag(ids, ps, tag, n - 1);
        assert forall|j: int| 0 <= j < ids_with_tag(ids, ps, tag, n).len() implies exists|i: int| 0 <= i < n && ids[i] == #[trigger] ids_with_tag(ids, ps, tag, n)[j] by {
            if j < prev.len() {
                assert(ids_with_tag(ids, ps, tag, n)[j] == prev[j]);
                let i = choose|i: int| 0 <= i < n - 1 && ids[i] == #[trigger] prev[j];
            } else {
                assert(ids[n - 1] == ids_with_tag(ids, ps, tag, n)[j]);
            }
        }
    }
}

/// What moving creature `id` next to the player does, `r` being the result by views.
pub open spec fn melee_move_step(w: World, after: World, id: Id<Creature>, r: Result<Vec<Event>, Error>) -> bool {
    let places = w.sp_map().places_view();
    let tiles = w.sp_map().tiles_view();
    if !places.contains_key(w.sp_player()@) || !places.contains_key(id@) {
        after == w && r matches Err(Error::NoSuchCreature)
    } else {
        let ph = places[w.sp_player()@];
        let from = places[id@];
        let near = open_hexes(tiles, spec_neighbors(ph), 6);
        if hex_distance(from, ph) <= 1 {
            after == w && (r matches Ok(v) && v@.len() == 0)
        } else if near.len() == 0 {
            after == w && r matches Err(Error::Obstructed)
        } else {
            exists|k: int|
                #[trigger] first_nearest(near, from, k) && (r matches Ok(v) && w.move_creature_step(after, id, near[k], event_views(v@)))
        }
    }
}

/// The hexes among the first `n` of `hs` that have an open tile, in order.
pub open spec fn open_hexes(tiles: Map<Hex, Tile>, hs: Seq<Hex>, n: int) -> Seq<Hex>
    decreases n,
{
    if n <= 0 {
        Seq::empty()
    } else if tiles.contains_key(hs[n - 1]) && tile_open(tiles[hs[n - 1]]) {
        open_hexes(tiles, hs, n - 1).push(hs[n - 1])
    } else {
        open_hexes(tiles, hs, n - 1)
    }
}

/// `k` is the first position in `hs` of a hex nearest to `from`.
pub open spec fn first_nearest(hs: Seq<Hex>, from: Hex, k: int) -> bool {
    &&& 0 <= k < hs.len()
    &&& forall|j: int| 0 <= j < hs.len() ==> hex_distance(from, hs[k]) <= hex_distance(from, #[trigger] hs[j])
    &&& forall|j: int| 0 <= j < k ==> hex_distance(from, hs[k]) < hex_distance(from, #[trigger] hs[j])
}

/// Moves creature `id` onto the open hex next to the player that is nearest to it, the
/// first such in the order of directions, unless it is next to the player already.
pub fn move_to_melee(world: &mut World, id: Id<Creature>) -> (r: Result<Vec<Event>, Error>)
    requires
        old(world).wf(),
    ensures
        final(world).wf(),
        melee_move_step(*old(world), *final(world), id, r),
{
    proof {
        world.lemma_wf();
        world.sp_map().lemma_wf();
    }
    let player_hex = match world.map().creature_hex(world.player_id()) {
        Some(h) => h,
        None => return Err(Error::NoSuchCreature),
    };
    let from = match world.map().creature_hex(id) {
        Some(h) => h,
        None => return Err(Error::NoSuchCreature),
    };
    if from.distance_to(player_hex) <= 1 {
        proof {
            assert(hex_distance(from, player_hex) == hex_distance(player_hex, from));
        }
        return Ok(Vec::new());
    }
    let ghost tiles = world.sp_map().tiles_view();
    let ns = player_hex.neighbors();
    let mut near: Vec<Hex> = Vec::new();
    let mut i: usize = 0;
    while i < ns.len()
        invariant
            world.wf(),
            world.sp_map().wf(),
            tiles == world.sp_map().tiles_view(),
            i <= ns@.len(),
            ns@ == spec_neighbors(player_hex),
            near@ == open_hexes(tiles, ns@, i as int),
        decreases ns@.len() - i,
    {
        let open = match world.map().tile(ns[i]) {
            Some(t) => t.is_open(),
            None => false,
        };
        if open {
            near.push(ns[i]);
        }
        i = i + 1;
    }
    if near.len() == 0 {
        return Err(Error::Obstructed);
    }
    let mut best: usize = 0;
    let mut best_d: i64 = from.distance_to(near[0]);
    let mut j: usize = 1;
    while j < near.len()
        invariant
            1 <= j <= near@.len(),
            best < j,
            best_d == hex_distance(from, near@[best as int]),
            forall|k: int| 0 <= k < j ==> best_d <= hex_distance(from, #[trigger] near@[k]),
            forall|k: int| 0 <= k < best ==> best_d < hex_distance(from, #[trigger] near@[k]),
        decreases near@.len() - j,
    {
        let d = from.distance_to(near[j]);
        if d < best_d {
            best = j;
            best_d = d;
        }
        j = j + 1;
    }
    let to = near[best];
    proof {
        assert(first_nearest(near@, from, best as int));
    }
    let out = world.move_creature(id, to);
    Ok(out)
}

/// The intent a creature falls back on when it can carry out none of the others.
pub open spec fn is_stunned_intent(it: Intent) -> bool {
    it.name@ == "Stunned"@ && it.from is None && it.cost == 0 && it.kind is Stunned
}

impl Intent {
    /// A copy of this intent.
    pub fn copy(&self) -> (r: Intent)
        ensures
            r.name@ == self.name@,
            r.from == self.from,
            r.cost == self.cost,
            r.kind == self.kind,
    {
        Intent { name: self.name.clone(), from: self.from, cost: self.cost, kind: self.kind }
    }

    /// Whether creature `source` has what this intent needs.
    pub fn check(&self, world: &World, source: Id<Creature>) -> (r: Result<(), Error>)
        requires
            world.wf(),
        ensures
            match r {
                Ok(()) => spec_intent_fault(self.from, self.cost, *world, source) is None,
                Err(e) => spec_intent_fault(self.from, self.cost, *world, source) matches Some(f) && fault_error(e, f),
            },
    {
        proof {
            world.lemma_wf();
        }
        let creature = match world.creatures().get(&source) {
            Some(c) => c,
            None => return Err(Error::NoSuchCreature),
        };
        if creature.cur_ap < self.cost {
            let e = Error::not_enough("AP");
            proof {
                reveal_strlit("AP");
            }
            return Err(e);
        }
        match self.from {
            Some(part_id) => {
                proof {
                    assert(creature.wf());
                    creature.parts.lemma_view();
                }
                let part = match creature.parts.get(&part_id) {
                    Some(p) => p,
                    None => return Err(Error::NoSuchPart),
                };
                proof {
                    let k = choose|k: int| 0 <= k < creature.parts.key_seq().len() && creature.parts.key_seq()[k] == part_id@;
                    assert(creature.part_seq()[k].wf());
                }
                if part.tags().contains(&PartTag::Broken) {
                    return Err(Error::BrokenPart);
                }
            },
            None => {},
        }
        Ok(())
    }

    /// Moves creature `source` as this intent needs.
    pub fn move_(&self, world: &mut World, source: Id<Creature>) -> (r: Result<Vec<Event>, Error>)
        requires
            old(world).wf(),
        ensures
            final(world).wf(),
            match self.kind {
                IntentKind::Attack { .. } => melee_move_step(*old(world), *final(world), source, r),
                IntentKind::Stunned => *final(world) == *old(world) && (r matches Ok(v) && v@.len() == 0),
            },
    {
        self.kind.move_(world, source)
    }

    /// What carrying out this intent does, `r` being the result by views.
    pub open spec fn act_step(&self, w: World, after: World, source: Id<Creature>, r: Result<Seq<MetaView<EventDataView>>, Error>) -> bool {
        match spec_intent_fault(self.from, self.cost, w, source) {
            Some(f) => after == w && (r matches Err(e) && fault_error(e, f)),
            None => match spec_kind_check(self.kind, w, source) {
                Err(e) => after == w && r == Err::<Seq<MetaView<EventDataView>>, Error>(e),
                Ok(()) => exists|mid: World, e1: Seq<MetaView<EventDataView>>|
                    #[trigger] w.execute_step(mid, normal_to(source, ActionDataView::SpendAP { ap: 1 }), e1)
                        && if e1.len() > 0 && e1[0].data is Failed {
                        after == mid && r == Ok::<Seq<MetaView<EventDataView>>, Error>(e1)
                    } else {
                        exists|e2: Seq<MetaView<EventDataView>>|
                            #[trigger] kind_act_step(self.kind, mid, after, source, e2) && r == Ok::<Seq<MetaView<EventDataView>>, Error>(e1 + e2)
                    },
            },
        }
    }

    /// Carries out this intent: creature `source` must have what it needs and be where it
    /// can act; it spends one action point, and unless that fails, acts.
    pub fn act(&self, world: &mut World, source: Id<Creature>) -> (r: Result<Vec<Event>, Error>)
        requires
            old(world).wf(),
        ensures
            final(world).wf(),
            self.act_step(*old(world), *final(world), source, crate::action::result_views(r)),
    {
        match self.check(world, source) {
            Ok(()) => {},
            Err(e) => return Err(e),
        }
        match self.kind.check(world, source) {
            Ok(()) => {},
            Err(e) => return Err(e),
        }
        let mut events = world.execute(&normal_action(source, ActionData::SpendAP { ap: 1 }));
        let ghost mid = *world;
        let ghost e1 = event_views(events@);
        proof {
            if events@.len() > 0 {
                assert(e1[0] == events@[0]@);
            }
        }
        if Event::is_failure(&events) {
            return Ok(events);
        }
        let more = self.kind.act(world, source, self.from);
        let ghost e2 = event_views(more@);
        extend_events(&mut events, more);
        proof {
            assert(kind_act_step(self.kind, mid, *world, source, e2));
        }
        Ok(events)
    }
}

/// The intent of a stunned creature.
pub fn stunned() -> (r: Intent)
    ensures
        is_stunned_intent(r),
{
    let r = Intent { name: String::from_str("Stunned"), from: None, cost: 0, kind: IntentKind::Stunned };
    proof {
        reveal_strlit("Stunned");
    }
    r
}

impl Behavior {
    /// The intents this behavior offers next, best first; it may change its own state.
    pub open spec fn spec_next(&self) -> (Behavior, Seq<IntentPlan>) {
        match *self {
            Behavior::Monopod(m) => {
                let m2 = Monopod { kick_time: !m.kick_time, ..m };
                let plans = if m2.kick_time {
                    seq![m2.kick_plan(), m2.headbutt_plan()]
                } else {
                    seq![m2.headbutt_plan(), m2.kick_plan()]
                };
                (Behavior::Monopod(m2), plans)
            },
        }
    }

    pub fn intent(&mut self, _world: &World, _id: Id<Creature>) -> (r: Vec<Intent>)
        ensures
            *final(self) == old(self).spec_next().0,
            r@.len() == old(self).spec_next().1.len(),
            forall|i: int| 0 <= i < r@.len() ==> (#[trigger] r@[i]).planned(old(self).spec_next().1[i]),
    {
        match self {
            Behavior::Monopod(m) => m.intent(),
        }
    }
}

/// An intent by its plain values.
pub struct IntentPlan {
    pub name: Seq<char>,
    pub from: Option<Id<Part>>,
    pub cost: i32,
    pub kind: IntentKind,
}

impl Intent {
    /// This intent is the one `p` describes.
    pub open spec fn planned(&self, p: IntentPlan) -> bool {
        self.name@ == p.name && self.from == p.from && self.cost == p.cost && self.kind == p.kind
    }
}

/// The first plan of `plans` from the `i`-th on that creature `id` can carry out in
/// world `w`, if any.
pub open spec fn first_ok(plans: Seq<IntentPlan>, w: World, id: Id<Creature>, i: int) -> Option<IntentPlan>
    decreases plans.len() - i,
{
    if i < 0 || i >= plans.len() {
        None
    } else if spec_intent_fault(plans[i].from, plans[i].cost, w, id) is None {
        Some(plans[i])
    } else {
        first_ok(plans, w, id, i + 1)
    }
}

/// Whether a plan can be carried out depends on the creature's action points and parts
/// alone.
pub proof fn lemma_first_ok_frame(plans: Seq<IntentPlan>, w1: World, w2: World, id: Id<Creature>, i: int)
    requires
        w1.creature_view().contains_key(id@) == w2.creature_view().contains_key(id@),
        w1.creature_view().contains_key(id@) ==> w1.creature_view()[id@].cur_ap == w2.creature_view()[id@].cur_ap
            && w1.creature_view()[id@].parts == w2.creature_view()[id@].parts,
    ensures
        first_ok(plans, w1, id, i) == first_ok(plans, w2, id, i),
    decreases plans.len() - i,
{
    if 0 <= i < plans.len() {
        lemma_first_ok_frame(plans, w1, w2, id, i + 1);
    }
}

impl NPC {
    /// What planning the next turn does: the behavior offers its intents and moves on, and
    /// the first that creature `id` can carry out becomes the intent; with none, it is
    /// stunned.
    pub open spec fn update_step(&self, after: NPC, w: World, id: Id<Creature>) -> bool {
        let (b2, plans) = self.behavior.spec_next();
        &&& after.behavior == b2
        &&& match first_ok(plans, w, id, 0) {
            Some(p) => after.intent.planned(p),
            None => is_stunned_intent(after.intent),
        }
    }

    /// Plans creature `id`'s next turn.
    pub fn update(&mut self, world: &World, id: Id<Creature>)
        requires
            world.wf(),
        ensures
            old(self).update_step(*final(self), *world, id),
    {
        let ghost plans = self.behavior.spec_next().1;
        let intents = self.behavior.intent(world, id);
        let mut intents = intents;
        let mut i: usize = 0;
        while i < intents.len()
            invariant
                world.wf(),
                plans == old(self).behavior.spec_next().1,
                self.behavior == old(self).behavior.spec_next().0,
                intents@.len() == plans.len(),
                forall|j: int| 0 <= j < intents@.len() ==> (#[trigger] intents@[j]).planned(plans[j]),
                i <= intents@.len(),
                first_ok(plans, *world, id, 0) == first_ok(plans, *world, id, i as int),
            decreases intents@.len() - i,
        {
            if intents[i].check(world, id).is_ok() {
                let ghost it0 = intents@[i as int];
                let it = intents.remove(i);
                assert(it == it0);
                self.intent = it;
                return;
            }
            i = i + 1;
        }
        self.intent = stunned();
    }
}

/// The copy of an NPC: its intent and its behavior.
pub fn copy_npc(n: &NPC) -> (r: NPC)
    ensures
        r.intent.planned(IntentPlan { name: n.intent.name@, from: n.intent.from, cost: n.intent.cost, kind: n.intent.kind }),
        r.behavior == n.behavior,
{
    NPC { intent: n.intent.copy(), behavior: n.behavior }
}

proof fn lemma_first_ok_is_first(plans: Seq<IntentPlan>, w: World, id: Id<Creature>, i: int)
    requires
        0 <= i,
    ensures
        first_ok(plans, w, id, i) matches Some(p) ==> exists|k: int| i <= k < plans.len() && plans[k] == p
            && spec_intent_fault(plans[k].from, plans[k].cost, w, id) is None
            && forall|j: int| i <= j < k ==> (#[trigger] spec_intent_fault(plans[j].from, plans[j].cost, w, id)) is Some,
        first_ok(plans, w, id, i) is None ==> forall|j: int| i <= j < plans.len()
            ==> (#[trigger] spec_intent_fault(plans[j].from, plans[j].cost, w, id)) is Some,
    decreases plans.len() - i,
{
    if i < plans.len() {
        lemma_first_ok_is_first(plans, w, id, i + 1);
        if spec_intent_fault(plans[i].from, plans[i].cost, w, id) is None {
            assert(plans[i] == first_ok(plans, w, id, i)->0);
        } else if first_ok(plans, w, id, i + 1) is Some {
            let p = first_ok(plans, w, id, i)->0;
            let k = choose|k: int| i + 1 <= k < plans.len() && plans[k] == p
                && spec_intent_fault(plans[k].from, plans[k].cost, w, id) is None
                && forall|j: int| i + 1 <= j < k ==> (#[trigger] spec_intent_fault(plans[j].from, plans[j].cost, w, id)) is Some;
            assert forall|j: int| i <= j < k implies (#[trigger] spec_intent_fault(plans[j].from, plans[j].cost, w, id)) is Some by {
                if j > i {
                    assert(i + 1 <= j < k);
                }
            }
        }
    }
}

/// Planning the next turn takes the behavior's next state, and as the intent the first of
/// the intents it offers that the creature can carry out, every one offered before it
/// being out of reach; when none can be carried out, the creature is stunned.
pub proof fn law_update_picks_first_feasible(n: NPC, after: NPC, w: World, id: Id<Creature>)
    requires
        n.update_step(after, w, id),
    ensures
        after.behavior == n.behavior.spec_next().0,
        ({
            let plans = n.behavior.spec_next().1;
            ||| exists|k: int| 0 <= k < plans.len() && after.intent.planned(plans[k])
                && spec_intent_fault(plans[k].from, plans[k].cost, w, id) is None
                && forall|j: int| 0 <= j < k ==> (#[trigger] spec_intent_fault(plans[j].from, plans[j].cost, w, id)) is Some
            ||| (forall|j: int| 0 <= j < plans.len() ==> (#[trigger] spec_intent_fault(plans[j].from, plans[j].cost, w, id)) is Some)
                && is_stunned_intent(after.intent)
        }),
{
    let plans = n.behavior.spec_next().1;
    lemma_first_ok_is_first(plans, w, id, 0);
}

} // verus!
