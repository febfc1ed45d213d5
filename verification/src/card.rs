//! Cards: what a part can do, played from a creature's hand in two moves: starting the
//! play fixes what the card will do, finishing it on a target does it.
use vstd::prelude::*;
use vstd::string::StringExecFns;
use crate::action::{
    ActionData, ActionDataView, Event, EventData, EventDataView, Meta, MetaView, Path, event_views,
    extend_events, spec_path_creature, spec_path_part, to_creature,
};
use crate::creature::{Creature, CardId};
use crate::error::Error;
use crate::hex::{Hex, spec_neighbors};
use crate::id_map::Id;
use crate::library::card::{
    float_text, guard_apply, guard_step, heal_action, heal_apply, hit_part_apply, hit_part_step, rage_action,
    rage_apply, spec_target_parts, stagger_apply, stagger_step, target_parts,
};
use crate::map::{SightLine, seen_from};
use crate::part::{Part, PartTag};
use crate::vec_set::VecSet;
use crate::world::{World, normal_action, normal_to};

verus! {

/// Which effect a card has when played.
#[derive(Debug, Clone, Copy, PartialEq, Eq, Structural, Hash)]
pub enum CardKind {
    ThrowDebris,
    Punch,
    Guard,
    Stagger,
    Heal,
    Rage,
}

#[derive(Debug, Clone)]
pub struct Card {
    pub name: String,
    pub ap_cost: i32,
    pub kind: CardKind,
}

/// What a card in play will do, fixed when the play starts.
#[derive(Debug, Clone)]
pub enum Behavior {
    /// A hit for `damage` on a part of another creature that has all the tags of one of
    /// the groups in `tags`, standing on one of the hexes of `range`.
    HitPart { damage: i32, tags: Vec<Vec<PartTag>>, range: VecSet<Hex> },
    Guard,
    Stagger,
    Heal { amount: i32 },
    Rage,
}

/// What a card may be played on.
#[derive(Debug, Clone)]
pub enum TargetSpec {
    /// The world itself, no entity in it.
    NoTarget,
    /// A part, of the player's creature or of another one, with all the tags of one of the
    /// groups.
    Part { on_player: bool, tags: Vec<Vec<PartTag>> },
    /// A creature other than the player's.
    Creature,
}

/// `tags` holds every tag of `group`.
pub open spec fn group_held(tags: Set<PartTag>, group: Seq<PartTag>) -> bool {
    forall|j: int| 0 <= j < group.len() ==> tags.contains(#[trigger] group[j])
}

/// `tags` holds every tag of one of the groups.
pub open spec fn some_group_held(tags: Set<PartTag>, groups: Seq<Vec<PartTag>>) -> bool {
    exists|i: int| 0 <= i < groups.len() && #[trigger] group_held(tags, groups[i]@)
}

/// Whether `target` in world `w` is what the target spec `ts` asks for.
pub open spec fn spec_matches(ts: TargetSpec, w: World, target: Path) -> bool {
    match (ts, target) {
        (TargetSpec::NoTarget, Path::Global) => true,
        (TargetSpec::Part { on_player, tags }, Path::Part { cid, pid }) => {
            &&& on_player == (cid == w.sp_player())
            &&& w.creature_view().contains_key(cid@)
            &&& w.creature_view()[cid@].parts@.contains_key(pid@)
            &&& some_group_held(w.creature_view()[cid@].parts@[pid@].spec_tags(), tags@)
        },
        (TargetSpec::Creature, Path::Creature { cid }) => cid != w.sp_player(),
        _ => false,
    }
}

impl TargetSpec {
    /// Whether `target` is what this spec asks for.
    pub fn matches(&self, world: &World, target: &Path) -> (r: bool)
        requires
            world.wf(),
        ensures
            r == spec_matches(*self, *world, *target),
    {
        proof {
            world.lemma_wf();
        }
        match (self, target) {
            (TargetSpec::NoTarget, Path::Global) => true,
            (TargetSpec::Part { on_player, tags }, Path::Part { cid, pid }) => {
                if *on_player != crate::id_map::same_id(cid, &world.player_id()) {
                    return false;
                }
                let creature = match world.creatures().get(cid) {
                    Some(c) => c,
                    None => return false,
                };
                proof {
                    assert(creature.wf());
                    creature.parts.lemma_view();
                }
                let part = match creature.parts.get(pid) {
                    Some(p) => p,
                    None => return false,
                };
                proof {
                    let k = pid@;
                    let i = choose|i: int| 0 <= i < creature.parts.key_seq().len() && creature.parts.key_seq()[i] == k;
                    assert(creature.part_seq()[i].wf());
                }
                let part_tags = part.tags();
                let ghost goal = spec_matches(*self, *world, *target);
                assert(goal == some_group_held(part_tags@, tags@));
                let mut g: usize = 0;
                while g < tags.len()
                    invariant
                        goal == spec_matches(*self, *world, *target),
                        goal == some_group_held(part_tags@, tags@),
                        part_tags@ == part.spec_tags(),
                        g <= tags@.len(),
                        forall|i: int| 0 <= i < g ==> !#[trigger] group_held(part_tags@, tags@[i]@),
                    decreases tags@.len() - g,
                {
                    let group = &tags[g];
                    assert(group@ == tags@[g as int]@);
                    let mut j: usize = 0;
                    let mut all = true;
                    while j < group.len()
                        invariant
                            j <= group@.len(),
                            all == (forall|k: int| 0 <= k < j ==> part_tags@.contains(#[trigger] group@[k])),
                        decreases group@.len() - j,
                    {
                        if !part_tags.contains(&group[j]) {
                            all = false;
                        }
                        j = j + 1;
                    }
                    if all {
                        proof {
                            assert(group_held(part_tags@, tags@[g as int]@));
                            assert(some_group_held(part.spec_tags(), tags@));
                        }
                        return true;
                    }
                    g = g + 1;
                }
                false
            },
            (TargetSpec::Creature, Path::Creature { cid }) => !crate::id_map::same_id(cid, &world.player_id()),
            _ => false,
        }
    }
}

/// A group of tags holding `Open` alone.
fn open_groups() -> (r: Vec<Vec<PartTag>>)
    ensures
        r@.len() == 1,
        r@[0]@ == seq![PartTag::Open],
{
    let r = vec![vec![PartTag::Open]];
    assert(r@[0]@ =~= seq![PartTag::Open]);
    r
}

fn copy_groups(g: &Vec<Vec<PartTag>>) -> (r: Vec<Vec<PartTag>>)
    ensures
        r@.len() == g@.len(),
        forall|i: int| 0 <= i < g@.len() ==> (#[trigger] r@[i])@ == g@[i]@,
{
    let mut out: Vec<Vec<PartTag>> = Vec::new();
    let mut i: usize = 0;
    while i < g.len()
        invariant
            i <= g@.len(),
            out@.len() == i,
            forall|k: int| 0 <= k < i ==> (#[trigger] out@[k])@ == g@[k]@,
        decreases g@.len() - i,
    {
        let inner = &g[i];
        let mut c: Vec<PartTag> = Vec::new();
        let mut j: usize = 0;
        while j < inner.len()
            invariant
                j <= inner@.len(),
                c@ == inner@.take(j as int),
            decreases inner@.len() - j,
        {
            c.push(inner[j]);
            assert(c@ =~= inner@.take(j + 1));
            j = j + 1;
        }
        assert(c@ =~= inner@);
        out.push(c);
        i = i + 1;
    }
    out
}

impl Behavior {
    /// The target spec of this behavior.
    pub open spec fn spec_target_spec_is(&self, ts: TargetSpec) -> bool {
        match *self {
            Behavior::HitPart { tags, .. } => ts matches TargetSpec::Part { on_player, tags: t }
                && !on_player && t@.len() == tags@.len() && forall|i: int| 0 <= i < tags@.len() ==> (#[trigger] t@[i])@ == tags@[i]@,
            Behavior::Guard => ts matches TargetSpec::Part { on_player, tags: t } && on_player && t@.len() == 1
                && t@[0]@ == seq![PartTag::Open],
            Behavior::Stagger => ts is Creature,
            Behavior::Heal { .. } => ts matches TargetSpec::Part { on_player, tags: t } && on_player && t@.len() == 1
                && t@[0]@ == seq![PartTag::Flesh],
            Behavior::Rage => ts is NoTarget,
        }
    }

    /// What the behavior may be played on.
    pub fn target_spec(&self) -> (r: TargetSpec)
        ensures
            self.spec_target_spec_is(r),
    {
        match self {
            Behavior::HitPart { tags, .. } => TargetSpec::Part { on_player: false, tags: copy_groups(tags) },
            Behavior::Guard => TargetSpec::Part { on_player: true, tags: open_groups() },
            Behavior::Stagger => TargetSpec::Creature,
            Behavior::Heal { .. } => {
                let t = vec![vec![PartTag::Flesh]];
                assert(t@[0]@ =~= seq![PartTag::Flesh]);
                TargetSpec::Part { on_player: true, tags: t }
            },
            Behavior::Rage => TargetSpec::NoTarget,
        }
    }

    /// The hexes a target must stand on, none meaning anywhere.
    pub open spec fn spec_range(&self, w: World) -> Seq<Hex> {
        match *self {
            Behavior::HitPart { range, .. } => range.elems(),
            Behavior::Stagger => spec_neighbors(w.sp_map().places_view()[w.sp_player()@]),
            _ => Seq::empty(),
        }
    }

    /// The hexes a target must stand on; none means anywhere.
    pub fn range(&self, _source: &Path, world: &World) -> (r: Vec<Hex>)
        requires
            world.wf(),
        ensures
            r@ == self.spec_range(*world),
    {
        proof {
            world.lemma_wf();
            world.sp_map().lemma_wf();
        }
        match self {
            Behavior::HitPart { range, .. } => {
                let items = range.items();
                let mut out: Vec<Hex> = Vec::new();
                let mut i: usize = 0;
                while i < items.len()
                    invariant
                        i <= items@.len(),
                        out@ == items@.take(i as int),
                    decreases items@.len() - i,
                {
                    out.push(items[i]);
                    assert(out@ =~= items@.take(i + 1));
                    i = i + 1;
                }
                assert(out@ =~= items@);
                out
            },
            Behavior::Stagger => {
                let pos = match world.map().creature_hex(world.player_id()) {
                    Some(h) => h,
                    None => {
                        proof {
                            assert(false);
                        }
                        return Vec::new();
                    },
                };
                pos.neighbors()
            },
            _ => Vec::new(),
        }
    }

    /// Where `target_check` is defined: the paths it reads name what it reads.
    pub open spec fn check_defined(&self, w: World, source: Path, target: Path) -> bool {
        match *self {
            Behavior::HitPart { .. } => spec_path_creature(source) is Some && spec_path_creature(target) is Some,
            Behavior::Stagger => spec_path_creature(target) is Some && w.creature_view().contains_key(
                spec_path_creature(target)->0@,
            ),
            Behavior::Heal { .. } => spec_path_part(target) matches Some((cid, pid)) && w.creature_view().contains_key(cid@)
                && w.creature_view()[cid@].parts@.contains_key(pid@),
            _ => true,
        }
    }

    /// The behavior's own test of a target: a hit must land on another creature, a guard
    /// on another part, a stagger on a creature with an unbroken part, a heal on a hurt
    /// part.
    pub open spec fn spec_target_check(&self, w: World, source: Path, target: Path) -> bool {
        match *self {
            Behavior::HitPart { .. } => spec_path_creature(target) != spec_path_creature(source),
            Behavior::Guard => spec_path_part(source) != spec_path_part(target),
            Behavior::Stagger => spec_target_parts(w, spec_path_creature(target)->0).len() > 0,
            Behavior::Heal { .. } => {
                let (cid, pid) = spec_path_part(target)->0;
                let p = w.creature_view()[cid@].parts@[pid@];
                p.cur_hp < p.max_hp
            },
            Behavior::Rage => true,
        }
    }

    pub fn target_check(&self, world: &World, source: &Path, target: &Path) -> (r: bool)
        requires
            world.wf(),
            self.check_defined(*world, *source, *target),
        ensures
            r == self.spec_target_check(*world, *source, *target),
    {
        proof {
            world.lemma_wf();
        }
        match self {
            Behavior::HitPart { .. } => crate::action::same_creature_opt(&target.creature(), &source.creature()) == false,
            Behavior::Guard => match (source.part(), target.part()) {
                (Some((a, p)), Some((b, q))) => !(crate::id_map::same_id(&a, &b) && crate::id_map::same_id(&p, &q)),
                (None, None) => false,
                _ => true,
            },
            Behavior::Stagger => {
                let cid = match target.creature() {
                    Some(c) => c,
                    None => {
                        proof {
                            assert(false);
                        }
                        return false;
                    },
                };
                let parts = target_parts(world, cid);
                proof {
                    assert(parts@.map_values(|x: (String, Id<Part>)| (x.0@, x.1)).len() == parts@.len());
                }
                parts.len() > 0
            },
            Behavior::Heal { .. } => {
                let (cid, pid) = match target.part() {
                    Some(x) => x,
                    None => {
                        proof {
                            assert(false);
                        }
                        return false;
                    },
                };
                match world.creatures().get(&cid) {
                    Some(c) => match c.parts.get(&pid) {
                        Some(p) => p.cur_hp < p.max_hp,
                        None => {
                            proof {
                                assert(false);
                            }
                            false
                        },
                    },
                    None => {
                        proof {
                            assert(false);
                        }
                        false
                    },
                }
            },
            Behavior::Rage => true,
        }
    }

    /// `target` matches this behavior's target spec and stands in its range, if it has one.
    pub open spec fn spec_fits(&self, w: World, target: Path) -> bool {
        let range = self.spec_range(w);
        &&& exists|ts: TargetSpec| #[trigger] self.spec_target_spec_is(ts) && spec_matches(ts, w, target)
        &&& range.len() > 0 ==> (spec_path_creature(target) matches Some(cid) && w.sp_map().places_view().contains_key(cid@)
            && range.contains(w.sp_map().places_view()[cid@]))
    }

    /// Whether the card may be finished on `target`.
    pub fn target_valid(&self, world: &World, source: &Path, target: &Path) -> (r: bool)
        requires
            world.wf(),
            self.spec_fits(*world, *target) ==> self.check_defined(*world, *source, *target),
        ensures
            r == (self.spec_fits(*world, *target) && self.spec_target_check(*world, *source, *target)),
    {
        let ts = self.target_spec();
        if !ts.matches(world, target) {
            proof {
                assert forall|t: TargetSpec| #[trigger] self.spec_target_spec_is(t) implies !spec_matches(t, *world, *target) by {
                    lemma_target_spec_unique(*self, t, ts, *world, *target);
                }
            }
            return false;
        }
        let range = self.range(source, world);
        if range.len() > 0 {
            let pos = match target.hex(world) {
                Some(h) => h,
                None => return false,
            };
            let mut found = false;
            let mut i: usize = 0;
            while i < range.len()
                invariant
                    i <= range@.len(),
                    found == range@.take(i as int).contains(pos),
                decreases range@.len() - i,
            {
                if range[i] == pos {
                    found = true;
                }
                proof {
                    assert(range@.take(i + 1) =~= range@.take(i as int).push(range@[i as int]));
                    vstd::seq_lib::lemma_seq_contains_after_push(range@.take(i as int), range@[i as int], pos);
                }
                i = i + 1;
            }
            proof {
                assert(range@.take(range@.len() as int) =~= range@);
            }
            if !found {
                return false;
            }
        }
        self.target_check(world, source, target)
    }

    /// Where playing the behavior is defined: the paths it reads name what it reads.
    pub open spec fn apply_defined(&self, w: World, source: Path, target: Path) -> bool {
        match *self {
            Behavior::HitPart { .. } => spec_path_creature(source) matches Some(cid) && w.creature_view().contains_key(cid@),
            Behavior::Stagger => spec_path_creature(target) matches Some(cid) && w.creature_view().contains_key(cid@),
            Behavior::Rage => spec_path_creature(source) is Some,
            _ => true,
        }
    }

    /// What playing the behavior from `source` on `target` does.
    pub open spec fn apply_step(&self, w: World, after: World, source: Path, target: Path, es: Seq<MetaView<EventDataView>>) -> bool {
        match *self {
            Behavior::HitPart { damage, .. } => hit_part_step(w, after, source, target, damage, es),
            Behavior::Guard => guard_step(w, after, source, target, es),
            Behavior::Stagger => stagger_step(w, after, target, es),
            Behavior::Heal { amount } => w.execute_step(after, heal_action(source, target, amount), es),
            Behavior::Rage => w.execute_step(after, rage_action(source), es),
        }
    }

    /// Plays the behavior from `source` on `target`.
    pub fn apply(&self, world: &mut World, source: &Path, target: &Path) -> (out: Vec<Event>)
        requires
            old(world).wf(),
            self.apply_defined(*old(world), *source, *target),
        ensures
            final(world).wf(),
            self.apply_step(*old(world), *final(world), *source, *target, event_views(out@)),
    {
        match self {
            Behavior::HitPart { damage, .. } => hit_part_apply(world, source, target, *damage),
            Behavior::Guard => guard_apply(world, source, target),
            Behavior::Stagger => stagger_apply(world, target),
            Behavior::Heal { amount } => heal_apply(world, source, target, *amount),
            Behavior::Rage => rage_apply(world, source),
        }
    }
}

impl Behavior {
    /// Where a preview is defined: a stagger needs a creature on its target, the other
    /// behaviors what playing them needs.
    pub open spec fn preview_defined(&self, w: World, source: Path, target: Path) -> bool {
        match *self {
            Behavior::Stagger => spec_path_creature(target) is Some,
            _ => self.apply_defined(w, source, target),
        }
    }

    /// What a preview on `scratch` gives: a stagger only names itself over its target and
    /// leaves `scratch` alone, since which part it opens is left to chance; every other
    /// behavior is played on `scratch`.
    pub open spec fn preview_step(&self, scratch: World, after: World, source: Path, target: Path, es: Seq<MetaView<EventDataView>>) -> bool {
        match *self {
            Behavior::Stagger => after == scratch && es == seq![
                float_text(spec_path_creature(target)->0, "Stagger!"@),
            ],
            _ => self.apply_step(scratch, after, source, target, es),
        }
    }

    /// The events that playing the behavior from `source` on `target` would give, worked
    /// out on `scratch`, a copy of the world that the caller throws away.
    pub fn preview(&self, scratch: &mut World, source: &Path, target: &Path) -> (out: Vec<Event>)
        requires
            old(scratch).wf(),
            self.preview_defined(*old(scratch), *source, *target),
        ensures
            final(scratch).wf(),
            self.preview_step(*old(scratch), *final(scratch), *source, *target, event_views(out@)),
    {
        match self {
            Behavior::Stagger => {
                let cid = match target.creature() {
                    Some(c) => c,
                    None => {
                        proof {
                            assert(false);
                        }
                        return Vec::new();
                    },
                };
                let mut out: Vec<Event> = Vec::new();
                out.push(to_creature(cid, EventData::FloatText { text: String::from_str("Stagger!") }));
                proof {
                    assert(event_views(out@) =~= seq![
                        float_text(cid, "Stagger!"@),
                    ]);
                }
                out
            },
            _ => self.apply(scratch, source, target),
        }
    }
}

proof fn lemma_target_spec_unique(b: Behavior, t: TargetSpec, ts: TargetSpec, w: World, target: Path)
    requires
        b.spec_target_spec_is(t),
        b.spec_target_spec_is(ts),
        !spec_matches(ts, w, target),
    ensures
        !spec_matches(t, w, target),
{
    match (t, ts, target) {
        (TargetSpec::Part { tags: t1, .. }, TargetSpec::Part { tags: t2, .. }, Path::Part { cid, pid }) => {
            if spec_matches(t, w, target) {
                let tags = w.creature_view()[cid@].parts@[pid@].spec_tags();
                let i = choose|i: int| 0 <= i < t1@.len() && #[trigger] group_held(tags, t1@[i]@);
                match b {
                    Behavior::HitPart { tags: bt, .. } => {
                        assert(t1@[i]@ == bt@[i]@);
                        assert(t2@[i]@ == bt@[i]@);
                    },
                    _ => {},
                }
                assert(group_held(tags, t2@[i]@));
            }
        },
        _ => {},
    }
}

/// A card that has been started: the creature, part and card playing it, what it will
/// do, and what it costs.
#[derive(Debug, Clone)]
pub struct InPlay {
    pub creature_id: Id<Creature>,
    pub part_id: Id<Part>,
    pub card_id: Id<Card>,
    pub behavior: Behavior,
    pub ap_cost: i32,
}

/// The behavior that starting a card of kind `kind` from `source` fixes: hits with the
/// tags `Open`, a thrown one within sight of where the creature stands, a punch on the
/// hexes around it.
pub open spec fn started_as(b: Behavior, kind: CardKind, w: World, source: Path, lines: Seq<SightLine>) -> bool {
    let cid = spec_path_creature(source)->0;
    let pos = w.sp_map().places_view()[cid@];
    match kind {
        CardKind::ThrowDebris => b matches Behavior::HitPart { damage, tags, range } && damage == 5 && tags@.len() == 1
            && tags@[0]@ == seq![PartTag::Open] && range@ == seen_from(w.sp_map().tiles_view(), pos, cid, lines),
        CardKind::Punch => b matches Behavior::HitPart { damage, tags, range } && damage == 10 && tags@.len() == 1
            && tags@[0]@ == seq![PartTag::Open] && range@ == spec_neighbors(pos).to_set(),
        CardKind::Guard => b is Guard,
        CardKind::Stagger => b is Stagger,
        CardKind::Heal => b matches Behavior::Heal { amount } && amount == 5,
        CardKind::Rage => b is Rage,
    }
}

fn start_behavior(kind: CardKind, world: &World, source: &Path, lines: &[SightLine]) -> (r: Behavior)
    requires
        world.wf(),
        spec_path_creature(*source) matches Some(cid) && world.creature_view().contains_key(cid@),
    ensures
        started_as(r, kind, *world, *source, lines@),
{
    proof {
        world.lemma_wf();
        world.sp_map().lemma_wf();
    }
    match kind {
        CardKind::ThrowDebris | CardKind::Punch => {
            let cid = match source.creature() {
                Some(c) => c,
                None => {
                    proof {
                        assert(false);
                    }
                    return Behavior::Rage;
                },
            };
            let position = match world.map().creature_hex(cid) {
                Some(h) => h,
                None => {
                    proof {
                        assert(false);
                    }
                    return Behavior::Rage;
                },
            };
            match kind {
                CardKind::Punch => {
                    let ns = position.neighbors();
                    let range = VecSet::from_slice(ns.as_slice());
                    Behavior::HitPart { damage: 10, tags: open_groups(), range }
                },
                _ => {
                    let range = world.map().los_from(position, cid, lines);
                    Behavior::HitPart { damage: 5, tags: open_groups(), range }
                },
            }
        },
        CardKind::Guard => Behavior::Guard,
        CardKind::Stagger => Behavior::Stagger,
        CardKind::Heal => Behavior::Heal { amount: 5 },
        CardKind::Rage => Behavior::Rage,
    }
}

impl Card {
    /// A copy of this card.
    pub fn duplicate(&self) -> (r: Card)
        ensures
            r == *self,
    {
        Card { name: self.name.clone(), ap_cost: self.ap_cost, kind: self.kind }
    }

    /// What starting to play the `hand_ix`-th card in the hand of creature `creature_id`
    /// gives: the error, or the card in play.
    pub open spec fn start_play_result(
        w: World,
        creature_id: Id<Creature>,
        hand_ix: usize,
        lines: Seq<SightLine>,
        r: Result<InPlay, Error>,
    ) -> bool {
        let cs = w.creature_view();
        if !cs.contains_key(creature_id@) {
            r matches Err(Error::NoSuchCreature)
        } else if hand_ix >= cs[creature_id@].hand@.len() {
            r matches Err(Error::NoSuchCard)
        } else {
            let c = cs[creature_id@];
            let (part_id, card_id) = c.hand@[hand_ix as int];
            if !c.parts@.contains_key(part_id@) {
                r matches Err(Error::NoSuchPart)
            } else if !c.parts@[part_id@].cards@.contains_key(card_id@) {
                r matches Err(Error::NoSuchCard)
            } else {
                let card = c.parts@[part_id@].cards@[card_id@];
                r matches Ok(ip) && ip.creature_id == creature_id && ip.part_id == part_id && ip.card_id == card_id
                    && ip.ap_cost == card.ap_cost && started_as(
                    ip.behavior,
                    card.kind,
                    w,
                    Path::Part { cid: creature_id, pid: part_id },
                    lines,
                )
            }
        }
    }

    /// Starts playing the `hand_ix`-th card in the hand of creature `creature_id`; `lines`
    /// are the lines of sight from where it stands to each tile.
    pub fn start_play(world: &World, creature_id: Id<Creature>, hand_ix: usize, lines: &[SightLine]) -> (r: Result<InPlay, Error>)
        requires
            world.wf(),
        ensures
            Card::start_play_result(*world, creature_id, hand_ix, lines@, r),
    {
        proof {
            world.lemma_wf();
        }
        let creature = match world.creatures().get(&creature_id) {
            Some(c) => c,
            None => return Err(Error::NoSuchCreature),
        };
        if hand_ix >= creature.hand.len() {
            return Err(Error::NoSuchCard);
        }
        let (part_id, card_id) = creature.hand[hand_ix];
        let part = match creature.parts.get(&part_id) {
            Some(p) => p,
            None => return Err(Error::NoSuchPart),
        };
        proof {
            assert(creature.wf());
            creature.parts.lemma_view();
            let i = choose|i: int| 0 <= i < creature.parts.key_seq().len() && creature.parts.key_seq()[i] == part_id@;
            assert(creature.part_seq()[i].wf());
        }
        let card = match part.cards.get(&card_id) {
            Some(c) => c,
            None => return Err(Error::NoSuchCard),
        };
        let source = Path::Part { cid: creature_id, pid: part_id };
        let behavior = start_behavior(card.kind, world, &source, lines);
        Ok(InPlay { creature_id, part_id, card_id, behavior, ap_cost: card.ap_cost })
    }
}

/// Discarding the card in play.
pub open spec fn discard_action(ip: InPlay) -> MetaView<ActionDataView> {
    MetaView {
        source: Path::Global,
        target: Path::Card { cid: ip.creature_id, pid: ip.part_id, card: ip.card_id },
        tags: Set::empty(),
        data: ActionDataView::Discard,
    }
}

impl InPlay {
    /// The part the card is played from.
    pub open spec fn spec_source(&self) -> Path {
        Path::Part { cid: self.creature_id, pid: self.part_id }
    }

    pub fn source(&self) -> (r: Path)
        ensures
            r == self.spec_source(),
    {
        Path::Part { cid: self.creature_id, pid: self.part_id }
    }

    /// What finishing the play on `target` does: the card is discarded, the action points
    /// are spent, and unless spending them failed the behavior is played from the card's
    /// part.
    pub open spec fn finish_step(&self, w: World, after: World, target: Path, es: Seq<MetaView<EventDataView>>) -> bool {
        exists|w1: World, e1: Seq<MetaView<EventDataView>>, w2: World, e2: Seq<MetaView<EventDataView>>|
            #![trigger w.execute_step(w1, discard_action(*self), e1), w1.execute_step(w2, normal_to(self.creature_id, ActionDataView::SpendAP { ap: self.ap_cost }), e2)]
            w.execute_step(w1, discard_action(*self), e1) && w1.execute_step(
                w2,
                normal_to(self.creature_id, ActionDataView::SpendAP { ap: self.ap_cost }),
                e2,
            ) && if e2.len() > 0 && e2[0].data is Failed {
                after == w2 && es == e1 + e2
            } else {
                exists|e3: Seq<MetaView<EventDataView>>|
                    #[trigger] self.behavior.apply_step(w2, after, self.spec_source(), target, e3) && es == e1 + e2 + e3
            }
    }

    /// Finishes the play on `target`.
    pub fn finish(self, world: &mut World, target: &Path) -> (out: Vec<Event>)
        requires
            old(world).wf(),
            self.behavior.apply_defined(*old(world), self.spec_source(), *target),
        ensures
            final(world).wf(),
            self.finish_step(*old(world), *final(world), *target, event_views(out@)),
    {
        let mut events = world.execute(
            &Meta {
                source: Path::Global,
                target: Path::Card { cid: self.creature_id, pid: self.part_id, card: self.card_id },
                tags: VecSet::new(),
                data: ActionData::Discard,
            },
        );
        let ghost w1 = *world;
        let ghost e1 = event_views(events@);
        let ap = world.execute(&normal_action(self.creature_id, ActionData::SpendAP { ap: self.ap_cost }));
        let ghost w2 = *world;
        let ghost e2 = event_views(ap@);
        let ap_failed = Event::is_failure(&ap);
        proof {
            if ap@.len() > 0 {
                assert(e2[0] == ap@[0]@);
            }
            old(world).lemma_execute_keeps(w1, discard_action(self), e1);
            w1.lemma_execute_keeps(w2, normal_to(self.creature_id, ActionDataView::SpendAP { ap: self.ap_cost }), e2);
        }
        extend_events(&mut events, ap);
        if !ap_failed {
            let source = self.source();
            let more = self.behavior.apply(world, &source, target);
            let ghost e3 = event_views(more@);
            extend_events(&mut events, more);
            proof {
                assert(self.behavior.apply_step(w2, *world, self.spec_source(), *target, e3));
                assert(event_views(events@) =~= e1 + e2 + e3);
            }
        }
        events
    }
}

} // verus!
