//! The cards of the game and what each does when played.
use vstd::prelude::*;
use vstd::string::StringExecFns;
use crate::action::{
    Action, ActionData, ActionDataView, Event, EventData, EventDataView, Meta, MetaView, Path, Tag,
    event_views, extend_events, spec_path_creature, tags_of, to_creature,
};
use crate::card::{Card, CardKind};
use crate::creature::{Creature, part_unbroken};
use crate::id_map::Id;
use crate::part::{Part, PartTag, TagMod};
use crate::random::random_below;
use crate::status::{Expire, ExpireWhen, Status};
use crate::vec_set::VecSet;
use crate::error::Error;
use crate::world::{World, normal_action, normal_to, law_rage_strengthens_hits, reported};

verus! {

fn card(name: &str, kind: CardKind) -> (r: Card)
    ensures
        r.name@ == name@,
        r.ap_cost == 1,
        r.kind == kind,
{
    Card { name: String::from_str(name), ap_cost: 1, kind }
}

/// A ranged hit for 5 on an open part in sight.
pub fn throw_debris() -> (r: Card)
    ensures
        r.name@ == "Throw Debris"@,
        r.ap_cost == 1,
        r.kind == CardKind::ThrowDebris,
{
    card("Throw Debris", CardKind::ThrowDebris)
}

/// A hit for 10 on an open part next to the player.
pub fn punch() -> (r: Card)
    ensures
        r.name@ == "Punch"@,
        r.ap_cost == 1,
        r.kind == CardKind::Punch,
{
    card("Punch", CardKind::Punch)
}

/// Until the next enemy turn ends, the playing part is open and the guarded part is not.
pub fn guard() -> (r: Card)
    ensures
        r.name@ == "Guard"@,
        r.ap_cost == 1,
        r.kind == CardKind::Guard,
{
    card("Guard", CardKind::Guard)
}

/// Opens one unbroken part, chosen by chance, of an adjacent enemy until the player's turn
/// ends.
pub fn stagger() -> (r: Card)
    ensures
        r.name@ == "Stagger"@,
        r.ap_cost == 1,
        r.kind == CardKind::Stagger,
{
    card("Stagger", CardKind::Stagger)
}

/// Heals 5 on one of the player's flesh parts.
pub fn heal() -> (r: Card)
    ensures
        r.name@ == "Heal"@,
        r.ap_cost == 1,
        r.kind == CardKind::Heal,
{
    card("Heal", CardKind::Heal)
}

/// Gives the player's creature rage: its hits deal 7 more.
pub fn rage() -> (r: Card)
    ensures
        r.name@ == "Rage"@,
        r.ap_cost == 1,
        r.kind == CardKind::Rage,
{
    card("Rage", CardKind::Rage)
}

/// The action from the world at `target`, untagged, asking for `d`.
pub open spec fn world_to(target: Path, d: ActionDataView) -> MetaView<ActionDataView> {
    MetaView { source: Path::Global, target, tags: Set::empty(), data: d }
}

/// What adding the tag modification `m` to `target` until `when` does: the modification
/// is added, and if that reports its id first, an `Expire` status that clears it is added
/// to `target` too.
pub open spec fn tag_mod_step(
    w: World,
    after: World,
    target: Path,
    m: TagMod,
    when: ExpireWhen,
    es: Seq<MetaView<EventDataView>>,
) -> bool {
    exists|mid: World, e1: Seq<MetaView<EventDataView>>|
        #[trigger] w.execute_step(mid, world_to(target, ActionDataView::AddTagMod { m }), e1) && if e1.len() > 0
            && e1[0].data is TagsModded {
            exists|e2: Seq<MetaView<EventDataView>>|
                #[trigger] mid.execute_step(
                    after,
                    world_to(
                        target,
                        ActionDataView::AddStatus {
                            status: Status::Expire(Expire { target, mod_id: e1[0].data->TagsModded_id, when }),
                        },
                    ),
                    e2,
                ) && es == e1 + e2
        } else {
            after == mid && es == e1
        }
}

/// Modifies the tags of `target` with `m` until the event `when` comes.
pub fn tag_mod(world: &mut World, target: &Path, m: TagMod, when: ExpireWhen) -> (out: Vec<Event>)
    requires
        old(world).wf(),
    ensures
        final(world).wf(),
        tag_mod_step(*old(world), *final(world), *target, m, when, event_views(out@)),
{
    let mut out = world.execute(
        &Meta { source: Path::Global, target: *target, tags: VecSet::new(), data: ActionData::AddTagMod { m } },
    );
    let ghost mid = *world;
    let ghost e1 = event_views(out@);
    proof {
        if out@.len() > 0 {
            assert(e1[0] == out@[0]@);
        }
    }
    let mod_id = if out.len() > 0 {
        match &out[0].data {
            EventData::TagsModded { id } => *id,
            _ => return out,
        }
    } else {
        return out;
    };
    let more = world.execute(
        &Meta {
            source: Path::Global,
            target: *target,
            tags: VecSet::new(),
            data: ActionData::AddStatus { status: Status::Expire(Expire { target: *target, mod_id, when }) },
        },
    );
    proof {
        assert(mid.execute_step(
            *world,
            world_to(
                *target,
                ActionDataView::AddStatus {
                    status: Status::Expire(Expire { target: *target, mod_id: e1[0].data->TagsModded_id, when }),
                },
            ),
            event_views(more@),
        ));
    }
    extend_events(&mut out, more);
    out
}

/// The hit a card deals: from `source` to `target`, tagged `Attack`.
pub open spec fn hit_action(source: Path, target: Path, damage: i32) -> MetaView<ActionDataView> {
    MetaView { source, target, tags: set![Tag::Attack], data: ActionDataView::Hit { damage } }
}

/// What a hit played from `source` does: the playing creature spends all its move
/// points, then the hit lands.
pub open spec fn hit_part_step(
    w: World,
    after: World,
    source: Path,
    target: Path,
    damage: i32,
    es: Seq<MetaView<EventDataView>>,
) -> bool {
    let cid = spec_path_creature(source)->0;
    let mp = w.creature_view()[cid@].cur_mp;
    exists|mid: World, e1: Seq<MetaView<EventDataView>>, e2: Seq<MetaView<EventDataView>>|
        #![trigger w.execute_step(mid, normal_to(cid, ActionDataView::SpendMP { mp }), e1), mid.execute_step(after, hit_action(source, target, damage), e2)]
        w.execute_step(mid, normal_to(cid, ActionDataView::SpendMP { mp }), e1) && mid.wf() && mid.execute_step(
            after,
            hit_action(source, target, damage),
            e2,
        ) && es == e1 + e2
}

/// Plays a hit for `damage` from `source` on `target`.
pub fn hit_part_apply(world: &mut World, source: &Path, target: &Path, damage: i32) -> (out: Vec<Event>)
    requires
        old(world).wf(),
        spec_path_creature(*source) is Some,
        old(world).creature_view().contains_key(spec_path_creature(*source)->0@),
    ensures
        final(world).wf(),
        hit_part_step(*old(world), *final(world), *source, *target, damage, event_views(out@)),
{
    let cid = match source.creature() {
        Some(c) => c,
        None => {
            proof {
                assert(false);
            }
            return Vec::new();
        },
    };
    proof {
        world.lemma_wf();
    }
    let mp = match world.creatures().get(&cid) {
        Some(c) => c.cur_mp,
        None => {
            proof {
                assert(false);
            }
            0
        },
    };
    let mut out = world.execute(&normal_action(cid, ActionData::SpendMP { mp }));
    let ghost mid = *world;
    let ghost e1 = event_views(out@);
    let more = world.execute(
        &Meta { source: *source, target: *target, tags: tags_of(Tag::Attack), data: ActionData::Hit { damage } },
    );
    let ghost e2 = event_views(more@);
    extend_events(&mut out, more);
    proof {
        assert(old(world).execute_step(mid, normal_to(cid, ActionDataView::SpendMP { mp }), e1));
        assert(mid.execute_step(*world, hit_action(*source, *target, damage), e2));
        assert(mid.wf());
    }
    out
}

/// What guarding `target` from `source` does: `source` is opened and `target` closed,
/// each until the enemies' turn ends.
pub open spec fn guard_step(w: World, after: World, source: Path, target: Path, es: Seq<MetaView<EventDataView>>) -> bool {
    exists|mid: World, e1: Seq<MetaView<EventDataView>>, e2: Seq<MetaView<EventDataView>>|
        #![trigger tag_mod_step(w, mid, source, TagMod::Insert(PartTag::Open), ExpireWhen::NpcTurnEnd, e1), tag_mod_step(mid, after, target, TagMod::Remove(PartTag::Open), ExpireWhen::NpcTurnEnd, e2)]
        tag_mod_step(w, mid, source, TagMod::Insert(PartTag::Open), ExpireWhen::NpcTurnEnd, e1)
            && tag_mod_step(mid, after, target, TagMod::Remove(PartTag::Open), ExpireWhen::NpcTurnEnd, e2)
            && es == e1 + e2
}

pub fn guard_apply(world: &mut World, source: &Path, target: &Path) -> (out: Vec<Event>)
    requires
        old(world).wf(),
    ensures
        final(world).wf(),
        guard_step(*old(world), *final(world), *source, *target, event_views(out@)),
{
    let mut out = tag_mod(world, source, TagMod::Insert(PartTag::Open), ExpireWhen::NpcTurnEnd);
    let ghost mid = *world;
    let ghost e1 = event_views(out@);
    let more = tag_mod(world, target, TagMod::Remove(PartTag::Open), ExpireWhen::NpcTurnEnd);
    let ghost e2 = event_views(more@);
    extend_events(&mut out, more);
    proof {
        assert(tag_mod_step(*old(world), mid, *source, TagMod::Insert(PartTag::Open), ExpireWhen::NpcTurnEnd, e1));
        assert(tag_mod_step(mid, *world, *target, TagMod::Remove(PartTag::Open), ExpireWhen::NpcTurnEnd, e2));
    }
    out
}

/// The names and ids of the parts among the first `n` that are not broken, in order.
pub open spec fn named_unbroken(ids: Seq<Id<Part>>, ps: Seq<Part>, n: int) -> Seq<(Seq<char>, Id<Part>)>
    decreases n,
{
    if n <= 0 {
        Seq::empty()
    } else if part_unbroken(ps[n - 1]) {
        named_unbroken(ids, ps, n - 1).push((ps[n - 1].name@, ids[n - 1]))
    } else {
        named_unbroken(ids, ps, n - 1)
    }
}

/// The parts of creature `cid` that a stagger can expose, with their names.
pub open spec fn spec_target_parts(w: World, cid: Id<Creature>) -> Seq<(Seq<char>, Id<Part>)> {
    let c = w.creature_view()[cid@];
    named_unbroken(c.parts.id_seq(), c.part_seq(), c.parts.id_seq().len() as int)
}

/// The names and ids of the unbroken parts of creature `cid`.
pub fn target_parts(world: &World, cid: Id<Creature>) -> (r: Vec<(String, Id<Part>)>)
    requires
        world.wf(),
        world.creature_view().contains_key(cid@),
    ensures
        r@.map_values(|x: (String, Id<Part>)| (x.0@, x.1)) == spec_target_parts(*world, cid),
{
    proof {
        world.lemma_wf();
    }
    let c = match world.creatures().get(&cid) {
        Some(c) => c,
        None => {
            proof {
                assert(false);
            }
            return Vec::new();
        },
    };
    let (ids, ps) = c.parts.map();
    let mut out: Vec<(String, Id<Part>)> = Vec::new();
    let mut i: usize = 0;
    while i < ids.len()
        invariant
            c.wf(),
            ids@ == c.parts.id_seq(),
            ps@ == c.part_seq(),
            ids@.len() == ps@.len(),
            i <= ids@.len(),
            out@.map_values(|x: (String, Id<Part>)| (x.0@, x.1)) == named_unbroken(ids@, ps@, i as int),
        decreases ids@.len() - i,
    {
        let p = &ps[i];
        proof {
            c.parts.lemma_view();
            let k = c.parts.key_seq()[i as int];
            assert(c.parts.key_seq().contains(k));
            assert(c.part_seq()[i as int].wf());
        }
        if !p.is_broken() {
            let ghost before = out@;
            out.push((p.name.clone(), ids[i]));
            proof {
                assert(out@.map_values(|x: (String, Id<Part>)| (x.0@, x.1)) =~= before.map_values(
                    |x: (String, Id<Part>)| (x.0@, x.1),
                ).push((ps@[i as int].name@, ids@[i as int])));
            }
        }
        i = i + 1;
    }
    out
}

/// The float text `text` over creature `cid`.
pub open spec fn float_text(cid: Id<Creature>, text: Seq<char>) -> MetaView<EventDataView> {
    MetaView { source: Path::Global, target: Path::Creature { cid }, tags: Set::empty(), data: EventDataView::FloatText { text } }
}

/// What a stagger on `target` does: nothing when every part of the creature is broken,
/// else one unbroken part, chosen by chance, is named and opened until the player's turn
/// ends.
pub open spec fn stagger_step(w: World, after: World, target: Path, es: Seq<MetaView<EventDataView>>) -> bool {
    let cid = spec_path_creature(target)->0;
    let parts = spec_target_parts(w, cid);
    if parts.len() == 0 {
        after == w && es == Seq::<MetaView<EventDataView>>::empty()
    } else {
        exists|ix: int, e2: Seq<MetaView<EventDataView>>|
            0 <= ix < parts.len() && #[trigger] tag_mod_step(
                w,
                after,
                Path::Part { cid, pid: parts[ix].1 },
                TagMod::Insert(PartTag::Open),
                ExpireWhen::PlayerTurnEnd,
                e2,
            ) && es == seq![float_text(cid, "Exposed: "@ + parts[ix].0)] + e2
    }
}

pub fn stagger_apply(world: &mut World, target: &Path) -> (out: Vec<Event>)
    requires
        old(world).wf(),
        spec_path_creature(*target) is Some,
        old(world).creature_view().contains_key(spec_path_creature(*target)->0@),
    ensures
        final(world).wf(),
        stagger_step(*old(world), *final(world), *target, event_views(out@)),
{
    let cid = match target.creature() {
        Some(c) => c,
        None => {
            proof {
                assert(false);
            }
            return Vec::new();
        },
    };
    let parts = target_parts(world, cid);
    let ghost pv = parts@.map_values(|x: (String, Id<Part>)| (x.0@, x.1));
    if parts.len() == 0 {
        let r: Vec<Event> = Vec::new();
        assert(event_views(r@) =~= Seq::<MetaView<EventDataView>>::empty());
        return r;
    }
    let ix = random_below(parts.len());
    let (name, pid) = (&parts[ix].0, parts[ix].1);
    let mut text = String::from_str("Exposed: ");
    text.append(name.as_str());
    let mut out: Vec<Event> = Vec::new();
    out.push(to_creature(cid, EventData::FloatText { text }));
    let ghost e1 = event_views(out@);
    let more = tag_mod(world, &Path::Part { cid, pid }, TagMod::Insert(PartTag::Open), ExpireWhen::PlayerTurnEnd);
    let ghost e2 = event_views(more@);
    extend_events(&mut out, more);
    proof {
        reveal_strlit("Exposed: ");
        assert(pv[ix as int] == (parts@[ix as int].0@, parts@[ix as int].1));
        assert(e1 =~= seq![float_text(cid, "Exposed: "@ + pv[ix as int].0)]);
        assert(tag_mod_step(*old(world), *world, Path::Part { cid, pid: pv[ix as int].1 }, TagMod::Insert(PartTag::Open), ExpireWhen::PlayerTurnEnd, e2));
    }
    out
}

/// What healing `target` by `amount` from `source` does.
pub open spec fn heal_action(source: Path, target: Path, amount: i32) -> MetaView<ActionDataView> {
    MetaView { source, target, tags: Set::empty(), data: ActionDataView::Heal { hp: amount } }
}

pub fn heal_apply(world: &mut World, source: &Path, target: &Path, amount: i32) -> (out: Vec<Event>)
    requires
        old(world).wf(),
    ensures
        final(world).wf(),
        old(world).execute_step(*final(world), heal_action(*source, *target, amount), event_views(out@)),
{
    world.execute(&Meta { source: *source, target: *target, tags: VecSet::new(), data: ActionData::Heal { hp: amount } })
}

/// Giving rage to the creature that `source` lies in.
pub open spec fn rage_action(source: Path) -> MetaView<ActionDataView> {
    MetaView {
        source,
        target: Path::Creature { cid: spec_path_creature(source)->0 },
        tags: Set::empty(),
        data: ActionDataView::AddStatus { status: Status::Rage },
    }
}

pub fn rage_apply(world: &mut World, source: &Path) -> (out: Vec<Event>)
    requires
        old(world).wf(),
        spec_path_creature(*source) is Some,
    ensures
        final(world).wf(),
        old(world).execute_step(*final(world), rage_action(*source), event_views(out@)),
{
    let cid = match source.creature() {
        Some(c) => c,
        None => {
            proof {
                assert(false);
            }
            return Vec::new();
        },
    };
    world.execute(
        &Meta { source: *source, target: Path::Creature { cid }, tags: VecSet::new(), data: ActionData::AddStatus { status: Status::Rage } },
    )
}

/// Playing a hit from a creature whose only status is Rage, where no other entity holds a
/// status, first spends the creature's move points and then resolves a hit from the
/// card's own path on the target, 7 stronger than the card's: a punch for 10 lands as 17.
pub proof fn law_rage_hit_card(
    w: World,
    after: World,
    cid: Id<Creature>,
    source: Path,
    target: Path,
    damage: i32,
    es: Seq<MetaView<EventDataView>>,
)
    requires
        w.wf(),
        spec_path_creature(source) == Some(cid),
        w.creature_view().contains_key(cid@),
        w.creature_view()[cid@].entity.status.value_seq() == seq![Status::Rage],
        w.statuses_only_on(cid@),
        !(spec_path_creature(target) matches Some(t) && t@ == cid@),
        damage + 7 <= i32::MAX,
        hit_part_step(w, after, source, target, damage, es),
    ensures
        exists|mid: World, e1: Seq<MetaView<EventDataView>>, r: Result<Seq<MetaView<EventDataView>>, Error>|
            #[trigger] mid.resolve_step(after, hit_action(source, target, (damage + 7) as i32), r)
            && #[trigger] w.execute_step(mid, normal_to(cid, ActionDataView::SpendMP { mp: w.creature_view()[cid@].cur_mp }), e1)
            && es == e1 + reported(r),
{
    let mp = w.creature_view()[cid@].cur_mp;
    let spend = normal_to(cid, ActionDataView::SpendMP { mp });
    let (mid, e1, e2) = choose|mid: World, e1: Seq<MetaView<EventDataView>>, e2: Seq<MetaView<EventDataView>>|
        #[trigger] w.execute_step(mid, spend, e1) && mid.wf()
            && #[trigger] mid.execute_step(after, hit_action(source, target, damage), e2) && es == e1 + e2;
    reveal(World::execute_step);
    // Spending move points leaves every entity's statuses as they were.
    w.lemma_only_hits_altered(spend, 0);
    let r1 = choose|r: Result<Seq<MetaView<EventDataView>>, Error>| #[trigger] w.resolve_step(mid, w.alters_from(spend, 0), r) && e1 == reported(r);
    assert(w.resolve_step(mid, spend, r1));
    let c = w.creature_view()[cid@];
    if c.can_take(spend) {
        let c2 = mid.creature_view()[cid@];
        assert(w.creature_replaced(mid, cid@, c2));
        assert(c.resolve_step(c2, spend, r1));
        assert(c2.entity == c.entity);
        assert(c2.parts@ == c.parts@);
        assert(mid.creature_view() == w.creature_view().insert(cid@, c2));
    }
    assert(mid.statuses_only_on(cid@));
    law_rage_strengthens_hits(mid, cid, source, target, damage);
    let r2 = choose|r: Result<Seq<MetaView<EventDataView>>, Error>| #[trigger] mid.resolve_step(after, mid.alters_from(hit_action(source, target, damage), 0), r) && e2 == reported(r);
    assert(mid.resolve_step(after, hit_action(source, target, (damage + 7) as i32), r2));
}

/// Playing Rage gives the creature it is played from one more status, Rage, under a fresh
/// id; its other statuses stay, and the play reports the status added.
pub proof fn law_rage_card_enrages(w: World, after: World, source: Path, es: Seq<MetaView<EventDataView>>)
    requires
        w.wf(),
        spec_path_creature(source) matches Some(cid) && w.creature_view().contains_key(cid@),
        w.creature_view()[spec_path_creature(source)->0@].entity.status.next() < u32::MAX,
        w.execute_step(after, rage_action(source), es),
    ensures
        ({
            let cid = spec_path_creature(source)->0;
            let s0 = w.creature_view()[cid@].entity.status;
            &&& after.creature_view().contains_key(cid@)
            &&& !s0@.contains_key(s0.next())
            &&& after.creature_view()[cid@].entity.status@ == s0@.insert(s0.next(), Status::Rage)
            &&& es.len() == 1
            &&& es[0].data == (EventDataView::StatusAdded { id: crate::id_map::id_of(s0.next()) })
        }),
{
    let cid = spec_path_creature(source)->0;
    let a = rage_action(source);
    reveal(World::execute_step);
    w.lemma_only_hits_altered(a, 0);
    let r = choose|r: Result<Seq<MetaView<EventDataView>>, Error>| #[trigger] w.resolve_step(after, w.alters_from(a, 0), r) && es == reported(r);
    assert(w.resolve_step(after, a, r));
    w.lemma_entity_wf(a.target);
    w.creature_view()[cid@].entity.status.lemma_view();
}

/// Playing Heal for `amount` on a part of a living creature raises the part's hit points
/// by `amount`, but never past its maximum; an amount that is not positive heals nothing.
pub proof fn law_heal_card_heals(
    w: World,
    after: World,
    source: Path,
    cid: Id<Creature>,
    pid: Id<Part>,
    amount: i32,
    es: Seq<MetaView<EventDataView>>,
)
    requires
        w.wf(),
        w.creature_view().contains_key(cid@),
        !w.creature_view()[cid@].dead,
        w.creature_view()[cid@].parts@.contains_key(pid@),
        w.creature_view()[cid@].can_take(heal_action(source, Path::Part { cid, pid }, amount)),
        w.execute_step(after, heal_action(source, Path::Part { cid, pid }, amount), es),
    ensures
        after.creature_view().contains_key(cid@),
        after.creature_view()[cid@].parts@.contains_key(pid@),
        ({
            let p = w.creature_view()[cid@].parts@[pid@];
            let gap = p.max_hp - p.cur_hp;
            let healed = if amount <= 0 || gap <= 0 { 0 } else if amount < gap { amount as int } else { gap };
            after.creature_view()[cid@].parts@[pid@].cur_hp == p.cur_hp + healed
        }),
{
    let target = Path::Part { cid, pid };
    let a = heal_action(source, target, amount);
    reveal(World::execute_step);
    w.lemma_only_hits_altered(a, 0);
    let r = choose|r: Result<Seq<MetaView<EventDataView>>, Error>| #[trigger] w.resolve_step(after, w.alters_from(a, 0), r) && es == reported(r);
    assert(w.resolve_step(after, a, r));
    let c = w.creature_view()[cid@];
    let c2 = after.creature_view()[cid@];
    assert(w.creature_replaced(after, cid@, c2));
    assert(c.resolve_step(c2, a, r));
    assert(c.part_path_step(c2, cid, pid, a, r));
    let p = c.parts@[pid@];
    assert(p.step(a.data).result is Ok);
    let (q, pes) = choose|q: Part, pes: Seq<MetaView<EventDataView>>| #[trigger] c.part_path_outcome(c2, cid, pid, a, r, q, pes);
    assert(p.resolved_state(q, a.data));
}

} // verus!
