use parts_unknown::action::{ActionData, Meta, Path, to_creature};
use parts_unknown::creature::{CardId, Creature};
use parts_unknown::hex::Hex;
use parts_unknown::id_map::IdMap;
use parts_unknown::library::npc::Monopod;
use parts_unknown::library::player::player;
use parts_unknown::map::{Space, TileMap};
use parts_unknown::mod_stack::ModStack;
use parts_unknown::part::{Part, PartTag, TagMod};
use parts_unknown::status::Status;
use parts_unknown::vec_set::VecSet;
use parts_unknown::world::{GameState, World};

fn h(x: i32, y: i32) -> Hex {
    Hex { x, y }
}

fn numbers(cards: &[CardId]) -> Vec<(u32, u32)> {
    let mut out: Vec<(u32, u32)> = cards.iter().map(|(p, c)| (p.value(), c.value())).collect();
    out.sort();
    out
}

fn held(c: &Creature) -> Vec<(u32, u32)> {
    let mut all = c.hand.clone();
    all.extend(c.draw.iter().cloned());
    all.extend(c.discard.iter().cloned());
    numbers(&all)
}

#[test]
fn player_starts_with_every_card_in_the_draw_pile() {
    let c = player();
    assert_eq!(c.parts.len(), 6);
    assert_eq!(c.max_ap(), 3);
    assert_eq!(c.hand_size(), 5);
    assert_eq!(c.max_mp(), 2);
    assert_eq!(c.draw.len(), 8);
    assert!(c.hand.is_empty());
    assert!(c.discard.is_empty());
    assert_eq!(numbers(&c.draw), numbers(&c.all_cards()));
    let (_, parts) = c.parts.map();
    assert_eq!((parts[2].thought, parts[2].memory, parts[2].mp), (0, 0, 0));
    assert_eq!((parts[4].thought, parts[4].memory, parts[4].mp), (0, 0, 1));
    assert!(parts.iter().all(|p| p.cur_hp == p.max_hp));
}

#[test]
fn monopod_starts_with_its_points_and_no_cards() {
    let c = Monopod::creature();
    assert_eq!(c.name, "Monopod");
    assert_eq!((c.cur_ap, c.max_ap()), (1, 1));
    assert_eq!((c.cur_mp, c.max_mp()), (3, 3));
    assert!(c.draw.is_empty() && c.hand.is_empty() && c.discard.is_empty());
    let (_, parts) = c.parts.map();
    assert_eq!(parts[0].name, "Hed");
    assert_eq!((parts[0].thought, parts[0].cur_hp, parts[0].max_hp), (1, 20, 20));
    assert_eq!(parts[1].name, "Fut");
    assert_eq!((parts[1].mp, parts[1].cur_hp, parts[1].max_hp), (3, 20, 20));
    let intent = &c.npc.as_ref().unwrap().intent;
    assert_eq!(intent.name, "Kick");
    assert_eq!(intent.cost, 1);
}

#[test]
fn new_game_deals_five_of_the_eight_cards() {
    let w = World::new();
    let pc = w.creatures().get(&w.player_id()).unwrap();
    assert_eq!(pc.hand.len(), 5);
    assert_eq!(pc.draw.len(), 3);
    assert!(pc.discard.is_empty());
    assert_eq!(held(pc), numbers(&pc.all_cards()));
    assert_eq!(w.state(), GameState::Play);
    // The map: the rim is wall, the player stands at the origin, nobody at (1, 0).
    assert!(matches!(w.map().tile(h(5, 0)).unwrap().space, Space::Wall));
    assert!(w.map().tile(h(0, 0)).unwrap().creature.is_some());
    assert!(w.map().tile(h(1, 0)).unwrap().creature.is_none());
    assert!(w.map().tile(h(6, 0)).is_none());
}

#[test]
fn drawing_hands_keeps_every_card() {
    let mut c = player();
    let before = held(&c);
    let cid = parts_unknown::id_map::Id::<Creature>::invalid();
    for _ in 0..4 {
        let r = c.resolve(&to_creature(cid, ActionData::NewHand));
        assert!(r.is_ok());
        assert_eq!(held(&c), before);
        assert_eq!(c.hand.len(), 5);
    }
}

#[test]
fn part_hit_points_stay_in_bounds() {
    let mut p = Part::new("Arm", &[PartTag::Arm], 10);
    let at = |data| Meta { source: Path::Global, target: Path::Global, tags: VecSet::new(), data };
    p.resolve(&at(ActionData::Hit { damage: 1000 })).unwrap();
    assert_eq!(p.cur_hp, 0);
    p.resolve(&at(ActionData::Heal { hp: 1000 })).unwrap();
    assert_eq!(p.cur_hp, 10);
    p.resolve(&at(ActionData::Hit { damage: -5 })).unwrap();
    assert_eq!(p.cur_hp, 10);
    p.resolve(&at(ActionData::Heal { hp: -5 })).unwrap();
    assert_eq!(p.cur_hp, 10);
    assert!(p.resolve(&at(ActionData::NewHand)).is_err());
    assert_eq!(p.cur_hp, 10);
}

#[test]
fn status_added_then_removed_leaves_none() {
    let mut w = World::new();
    let pid = w.player_id();
    let before = w.creatures().get(&pid).unwrap().entity.status.len();
    let es = w.execute(&to_creature(pid, ActionData::AddStatus { status: Status::Rage }));
    let sid = match es[0].data {
        parts_unknown::action::EventData::StatusAdded { id } => id,
        _ => panic!("no status added"),
    };
    w.execute(&to_creature(pid, ActionData::RemoveStatus { id: sid }));
    assert_eq!(w.creatures().get(&pid).unwrap().entity.status.len(), before);
}

#[test]
fn range_grows_with_steps_and_with_empty_ground() {
    let mut m = TileMap::new();
    let mut cs: IdMap<Creature> = IdMap::new();
    let blocker = cs.add(Monopod::creature());
    m.place_at(blocker, h(1, 0)).unwrap();
    for space_only in [false, true] {
        let r1 = m.range_from(h(0, 0), 1, space_only);
        let r3 = m.range_from(h(0, 0), 3, space_only);
        assert!(r1.items().iter().all(|x| r3.contains(x)));
    }
    let open = m.range_from(h(0, 0), 3, false);
    let ground = m.range_from(h(0, 0), 3, true);
    assert!(open.items().iter().all(|x| ground.contains(x)));
    assert!(!open.contains(&h(1, 0)));
    assert!(ground.contains(&h(1, 0)));
}

#[test]
fn id_map_add_then_remove_restores() {
    let mut m: IdMap<&str> = IdMap::new();
    m.add("a");
    let keys_before: Vec<u32> = m.keys().iter().map(|k| k.value()).collect();
    let id = m.add("b");
    assert_eq!(m.remove(&id), Some("b"));
    let keys_after: Vec<u32> = m.keys().iter().map(|k| k.value()).collect();
    assert_eq!(keys_after, keys_before);
    assert_eq!(m.len(), 1);
}

#[test]
fn mod_stack_add_then_remove_twice() {
    let mut ms = ModStack::new();
    let base = VecSet::from_slice(&[PartTag::Arm, PartTag::Open]);
    let before = ms.eval(base.copy()).items().to_vec();
    let id = ms.add(TagMod::Remove(PartTag::Open));
    assert!(!ms.eval(base.copy()).contains(&PartTag::Open));
    assert!(ms.remove(id));
    assert_eq!(ms.eval(base.copy()).items(), &before[..]);
    assert!(!ms.remove(id));
    assert_eq!(ms.eval(base.copy()).items(), &before[..]);
}
