use parts_unknown::action::{Action, ActionData, EventData, Meta, Path, Tag, tags_of, to_creature};
use parts_unknown::cell::Borrow;
use parts_unknown::creature::Creature;
use parts_unknown::error::Error;
use parts_unknown::filter::FilterKind;
use parts_unknown::id_map::IdMap;
use parts_unknown::mod_stack::ModStack;
use parts_unknown::part::{Part, PartTag, TagMod};
use parts_unknown::status::{AlterOrder, Expire, ExpireWhen, Status, StatusDone};
use parts_unknown::vec_set::VecSet;

fn creature_with(parts: Vec<Part>) -> (IdMap<Creature>, parts_unknown::id_map::Id<Creature>) {
    let mut cs: IdMap<Creature> = IdMap::new();
    let id = cs.add(Creature::new("Test", parts, None));
    (cs, id)
}

fn part(name: &str, tags: &[PartTag], hp: i32) -> Part {
    Part::new(name, tags, hp)
}

#[test]
fn id_map_add_get_remove() {
    let mut m: IdMap<&str> = IdMap::new();
    let a = m.add("a");
    let b = m.add("b");
    assert_eq!(a.value(), 0);
    assert_eq!(b.value(), 1);
    assert_eq!(m.get(&a), Some(&"a"));
    assert_eq!(m.remove(&a), Some("a"));
    assert_eq!(m.get(&a), None);
    assert_eq!(m.remove(&a), None);
    let c = m.add("c");
    assert_eq!(c.value(), 2);
    assert_eq!(m.len(), 2);
    *m.get_mut(&b).unwrap() = "bb";
    assert_eq!(m.get(&b), Some(&"bb"));
    assert_eq!(m.keys().len(), 2);
}

#[test]
fn vec_set_insert_remove() {
    let mut s: VecSet<PartTag> = VecSet::new();
    assert!(s.insert(PartTag::Open));
    assert!(!s.insert(PartTag::Open));
    assert!(s.contains(&PartTag::Open));
    assert!(s.remove(&PartTag::Open));
    assert!(!s.contains(&PartTag::Open));
    assert!(s.is_empty());
    let t = VecSet::from_slice(&[PartTag::Arm, PartTag::Leg, PartTag::Arm]);
    assert_eq!(t.items(), &[PartTag::Arm, PartTag::Leg]);
}

#[test]
fn mod_stack_add_then_remove_restores_tags() {
    let mut ms = ModStack::new();
    let base = VecSet::from_slice(&[PartTag::Arm]);
    let id = ms.add(TagMod::Insert(PartTag::Open));
    assert!(ms.eval(base.copy()).contains(&PartTag::Open));
    let id2 = ms.add(TagMod::Remove(PartTag::Open));
    assert!(!ms.eval(base.copy()).contains(&PartTag::Open));
    assert!(ms.remove(id2));
    assert!(ms.remove(id));
    assert!(!ms.remove(id));
    assert_eq!(ms.eval(base.copy()).items(), &[PartTag::Arm]);
}

#[test]
fn part_hit_breaks_and_heal_mends() {
    let mut p = part("Arm", &[PartTag::Arm, PartTag::Open], 10);
    let hit = Meta { source: Path::Global, target: Path::Global, tags: VecSet::new(), data: ActionData::Hit { damage: 4 } };
    let es = p.resolve(&hit).unwrap();
    assert_eq!(p.cur_hp, 6);
    assert!(matches!(es[0].data, EventData::ChangeHP { delta: -4 }));
    let big = Meta { source: Path::Global, target: Path::Global, tags: VecSet::new(), data: ActionData::Hit { damage: 100 } };
    let es = p.resolve(&big).unwrap();
    assert_eq!(p.cur_hp, 0);
    assert!(p.is_broken());
    assert!(!p.tags().contains(&PartTag::Open));
    assert!(matches!(es[0].data, EventData::ChangeHP { delta: -6 }));
    assert!(matches!(&es[1].data, EventData::TagsSet { tags } if tags == &vec![PartTag::Broken]));
    assert!(matches!(&es[2].data, EventData::TagsCleared { tags } if tags == &vec![PartTag::Open]));
    assert!(matches!(p.resolve(&hit), Err(Error::BrokenPart)));
    let heal = Meta { source: Path::Global, target: Path::Global, tags: VecSet::new(), data: ActionData::Heal { hp: 3 } };
    p.resolve(&heal).unwrap();
    assert_eq!(p.cur_hp, 3);
    assert!(!p.is_broken());
    let heal_more = Meta { source: Path::Global, target: Path::Global, tags: VecSet::new(), data: ActionData::Heal { hp: 30 } };
    let es = p.resolve(&heal_more).unwrap();
    assert_eq!(p.cur_hp, 10);
    assert!(matches!(es[0].data, EventData::ChangeHP { delta: 7 }));
    let nothing = Meta::new(ActionData::Nothing);
    assert!(matches!(p.resolve(&nothing), Err(Error::UnhandledAction)));
}

#[test]
fn creature_points_and_deck() {
    let mut head = part("Head", &[PartTag::Head, PartTag::Vital], 10);
    head.thought = 2;
    head.memory = 1;
    let mut leg = part("Leg", &[PartTag::Leg], 10);
    leg.mp = 2;
    let (mut cs, id) = creature_with(vec![head, leg]);
    let c = cs.get_mut(&id).unwrap();
    assert_eq!(c.max_ap(), 2);
    assert_eq!(c.max_mp(), 2);
    assert_eq!(c.hand_size(), 1);
    assert_eq!(c.cur_ap, 2);
    let gain = to_creature(id, ActionData::GainAP { ap: 3 });
    c.resolve(&gain).unwrap();
    assert_eq!(c.cur_ap, 5);
    let spend = to_creature(id, ActionData::SpendAP { ap: 3 });
    c.resolve(&spend).unwrap();
    assert_eq!(c.cur_ap, 2);
    let too_much = to_creature(id, ActionData::SpendAP { ap: 3 });
    match c.resolve(&too_much) {
        Err(e) => assert_eq!(e.message(), "Not enough AP"),
        Ok(_) => panic!("spent more than it had"),
    }
    let spend_mp = to_creature(id, ActionData::SpendMP { mp: 9 });
    match c.resolve(&spend_mp) {
        Err(e) => assert_eq!(e.debug_text(), "NotEnough(\"MP\")"),
        Ok(_) => panic!("spent more than it had"),
    }
    assert_eq!(c.open_parts().len(), 0);
    assert_eq!(c.unbroken_parts().len(), 2);
}

#[test]
fn breaking_a_vital_part_kills() {
    let mut head = part("Head", &[PartTag::Head, PartTag::Vital, PartTag::Open], 10);
    head.thought = 3;
    let arm = part("Arm", &[PartTag::Arm], 10);
    let (mut cs, id) = creature_with(vec![head, arm]);
    let c = cs.get_mut(&id).unwrap();
    let pids = c.parts.keys().to_vec();
    let hit = Meta { source: Path::Global, target: Path::Part { cid: id, pid: pids[0] }, tags: VecSet::new(), data: ActionData::Hit { damage: 20 } };
    assert!(c.check_take(&hit));
    let es = c.resolve(&hit).unwrap();
    assert!(c.dead);
    assert_eq!(c.cur_ap, 0);
    assert!(es.iter().any(|e| matches!(e.data, EventData::Died)));
    assert!(es.iter().any(|e| matches!(e.data, EventData::ChangeAP { delta: -3 })));
    // The arm was not open, the head was: one unbroken part opens by chance.
    assert!(c.parts.get(&pids[1]).unwrap().tags().contains(&PartTag::Open));
    assert!(matches!(c.resolve(&hit), Err(Error::DeadCreature)));
}

#[test]
fn new_hand_draws_and_recycles() {
    let mut arm = part("Arm", &[PartTag::Arm], 10);
    arm.memory = 2;
    arm.cards = IdMap::from_values(vec![
        parts_unknown::library::card::punch(),
        parts_unknown::library::card::guard(),
        parts_unknown::library::card::rage(),
    ]);
    let (mut cs, id) = creature_with(vec![arm]);
    let c = cs.get_mut(&id).unwrap();
    assert_eq!(c.all_cards().len(), 3);
    assert_eq!(c.draw.len(), 3);
    let es = c.resolve(&to_creature(id, ActionData::NewHand)).unwrap();
    assert_eq!(c.hand.len(), 2);
    assert_eq!(c.draw.len(), 1);
    assert_eq!(es.len(), 2);
    let es = c.resolve(&to_creature(id, ActionData::NewHand)).unwrap();
    // Two discarded, one drawn, the discards shuffled back, one more drawn.
    assert_eq!(es.len(), 2 + 1 + 1 + 1);
    assert!(matches!(es[3].data, EventData::DeckRecycled));
    assert_eq!(c.hand.len(), 2);
    assert_eq!(c.draw.len() + c.hand.len() + c.discard.len(), 3);
    let card = c.hand[0];
    let discard = Meta { source: Path::Global, target: Path::Card { cid: id, pid: card.0, card: card.1 }, tags: VecSet::new(), data: ActionData::Discard };
    c.resolve(&discard).unwrap();
    assert_eq!(c.hand.len(), 1);
    assert!(matches!(c.resolve(&discard), Err(Error::NoSuchCard)));
}

#[test]
fn statuses_alter_and_trigger() {
    let (cs, id) = creature_with(vec![part("Arm", &[PartTag::Arm], 10)]);
    let _ = cs;
    let on = Path::Creature { cid: id };
    let hit: Action = Meta { source: Path::Creature { cid: id }, target: Path::Global, tags: tags_of(Tag::Attack), data: ActionData::Hit { damage: 10 } };
    let altered = Status::Rage.alter(&on, &hit).unwrap();
    assert!(matches!(altered.data, ActionData::Hit { damage: 17 }));
    let other = Meta { source: Path::Global, target: Path::Global, tags: VecSet::new(), data: ActionData::Hit { damage: 10 } };
    assert!(Status::Rage.alter(&on, &other).is_none());
    assert_eq!(Status::Rage.alter_order(), AlterOrder::Add);
    let mut ms = ModStack::new();
    let mod_id = ms.add(TagMod::Insert(PartTag::Open));
    let e = Status::Expire(Expire { target: on, mod_id, when: ExpireWhen::NpcTurnEnd });
    let (acts, done) = e.trigger(&on, &Meta::new(EventData::PlayerTurnEnd));
    assert!(acts.is_empty());
    assert_eq!(done, StatusDone::Continue);
    let (acts, done) = e.trigger(&on, &Meta::new(EventData::NpcTurnEnd));
    assert_eq!(acts.len(), 1);
    assert!(matches!(acts[0].data, ActionData::ClearTagMod { .. }));
    assert_eq!(done, StatusDone::Expire);
}

#[test]
fn borrow_states() {
    let b = Borrow::free();
    let r = b.start_read().unwrap();
    assert_eq!(r.count(), Some(1));
    assert_eq!(r.end_read(), b);
    assert!(r.start_write().is_none());
    let w = b.start_write().unwrap();
    assert_eq!(w.count(), None);
    assert!(w.start_read().is_none());
    assert_eq!(w.end_write(), Borrow::free());
}

#[test]
fn error_texts_and_filter_order() {
    assert_eq!(Error::OutOfBounds.message(), "Out of bounds");
    assert_eq!(Error::OutOfBounds.debug_text(), "OutOfBounds");
    assert_eq!(Error::not_enough("AP").message(), "Not enough AP");
    assert_eq!(Error::NoSuchStatus.debug_text(), "NoSuchStatus");
    assert!(FilterKind::DamageMul < FilterKind::DamageAdd);
    assert!(FilterKind::DamageAdd < FilterKind::Misc);
}
